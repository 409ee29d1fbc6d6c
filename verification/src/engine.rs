//! The incremental computation engine.
use crate::graph::{
    edge_between, edges_within, graph_add_edge, graph_add_node, graph_edge_count, graph_edges,
    graph_find_edge, graph_is_cyclic, graph_neighbors, graph_new, graph_node_count,
    graph_remove_edge, graph_toposort, has_cycle, in_sources, is_depth_map, is_path, is_topo_order,
    layer_from_deps, lemma_depth_path, lemma_in_sources_contains, lemma_in_sources_push, lemma_topo_path,
    path_step, reaches, respects_edge, EdgeDirection,
};
use crate::log::{Log, LogEntry};
use crate::node::{Node, NodeKind, NodeView};
use crate::scheduler::{dirty_flags, node_views, propagate_dirty, propagated, with_dirty};
use crate::timing::{timed_alone, Stopwatch, TimeEvent};
use petgraph::Graph;
use rayon::iter::{IntoParallelRefIterator, ParallelIterator};
use vstd::hash_map::StringHashMap;
use vstd::prelude::*;
use vstd::string::StringExecFns;

verus! {

/// Why an engine operation was refused.
#[derive(Debug, Clone, PartialEq, Eq)]
pub enum EngineError {
    /// No node has this name.
    NodeNotFound(String),
    /// Adding the dependency `dep -> node` would close a cycle.
    WouldCycle { dep: String, node: String },
    /// The named node is a compute node, so its value cannot be set.
    NotInput(String),
    /// The named node holds no value yet.
    NoValue(String),
    /// The graph holds a cycle, so it has no topological order.
    CycleDetected,
    /// A compute node has no function.
    MissingFunction(String),
}

/// The text that describes an error.
pub open spec fn error_message(e: EngineError) -> Seq<char> {
    match e {
        EngineError::NodeNotFound(name) => "node '"@ + name@ + "' not found"@,
        EngineError::WouldCycle { dep, node } => "adding dep '"@ + dep@ + "' \u{2192} '"@ + node@
            + "' would create a cycle"@,
        EngineError::NotInput(name) => "'"@ + name@ + "' is not an Input node"@,
        EngineError::NoValue(name) => "'"@ + name@ + "' has no value (run topo_recompute first)"@,
        EngineError::CycleDetected => "cycle detected during toposort"@,
        EngineError::MissingFunction(name) => "Compute node '"@ + name@ + "' has no function"@,
    }
}

impl EngineError {
    /// The text that describes this error.
    pub fn message(&self) -> (r: String)
        ensures
            r@ == error_message(*self),
    {
        match self {
            EngineError::NodeNotFound(name) => {
                let mut r = String::from_str("node '");
                r.append(name.as_str());
                r.append("' not found");
                r
            },
            EngineError::WouldCycle { dep, node } => {
                let mut r = String::from_str("adding dep '");
                r.append(dep.as_str());
                r.append("' \u{2192} '");
                r.append(node.as_str());
                r.append("' would create a cycle");
                r
            },
            EngineError::NotInput(name) => {
                let mut r = String::from_str("'");
                r.append(name.as_str());
                r.append("' is not an Input node");
                r
            },
            EngineError::NoValue(name) => {
                let mut r = String::from_str("'");
                r.append(name.as_str());
                r.append("' has no value (run topo_recompute first)");
                r
            },
            EngineError::CycleDetected => String::from_str("cycle detected during toposort"),
            EngineError::MissingFunction(name) => {
                let mut r = String::from_str("Compute node '");
                r.append(name.as_str());
                r.append("' has no function");
                r
            },
        }
    }
}

/// Incremental computation engine.
///
/// Nodes are named; edges express "A depends on B" (B -> A in the directed graph,
/// so B is upstream of A). `V` is the type of the node values and `F` the type of
/// the compute functions, which receive the values of their dependencies.
pub struct DeltaForge<V, F> {
    graph: Graph<(), ()>,
    nodes: Vec<Node<V, F>>,
    /// name -> node index
    index: StringHashMap<usize>,
    log: Log,
    /// How the duration of each log entry was measured, one record per entry.
    timings: Vec<Stopwatch>,
}

/// The state of an engine, as mathematical values.
pub struct EngineView<V, F> {
    /// The nodes, by index.
    pub nodes: Seq<NodeView<V, F>>,
    /// The dependency edges `(dependency, dependent)`, by edge index.
    pub edges: Seq<(usize, usize)>,
    /// Which node each name stands for (the node added last under that name).
    pub index: Map<Seq<char>, usize>,
    /// The recomputation log.
    pub log: Seq<LogEntry>,
    /// For each log entry, the record of the stopwatch that measured its duration.
    pub timings: Seq<Seq<TimeEvent>>,
}

impl<V, F> View for DeltaForge<V, F> {
    type V = EngineView<V, F>;

    closed spec fn view(&self) -> EngineView<V, F> {
        EngineView {
            nodes: node_views(self.nodes@),
            edges: graph_edges(self.graph),
            index: self.index@,
            log: self.log@,
            timings: self.timings@.map_values(|w: Stopwatch| w@),
        }
    }
}

/// The compute function `f` may be called with any argument slice.
pub open spec fn accepts_all<V, F: Fn(&[Option<&V>]) -> V>(f: F) -> bool {
    forall|a: &[Option<&V>]| #[trigger] f.requires((a,))
}

/// `x` and `y` are both absent, or both present with equal values.
pub open spec fn same_value<V>(x: Option<&V>, y: Option<V>) -> bool {
    match (x, y) {
        (Some(r), Some(v)) => *r == v,
        (None, None) => true,
        _ => false,
    }
}

/// `a` holds the values of `deps` in `nodes`, in order.
pub open spec fn args_match<V, F>(a: &[Option<&V>], nodes: Seq<NodeView<V, F>>, deps: Seq<usize>) -> bool {
    &&& a@.len() == deps.len()
    &&& forall|k: int| 0 <= k < deps.len() ==> same_value(#[trigger] a@[k], nodes[deps[k] as int].value)
}

/// `v` is a value that `f` may return when called with the values of `deps` in `nodes`.
pub open spec fn computed_from<V, F: Fn(&[Option<&V>]) -> V>(
    f: F,
    nodes: Seq<NodeView<V, F>>,
    deps: Seq<usize>,
    v: V,
) -> bool {
    exists|a: &[Option<&V>]| #[trigger] f.ensures((a,), v) && args_match(a, nodes, deps)
}

/// Node `i` is a dirty compute node.
pub open spec fn needs_recompute<V, F>(s: EngineView<V, F>, i: int) -> bool {
    s.nodes[i].dirty && s.nodes[i].kind == NodeKind::Compute
}

/// The node `i` of `new` is the node `i` of `old` recomputed when it needed it,
/// and otherwise unchanged.
pub open spec fn node_recomputed<V, F: Fn(&[Option<&V>]) -> V>(
    old: EngineView<V, F>,
    new: EngineView<V, F>,
    i: int,
) -> bool {
    &&& new.nodes[i].name == old.nodes[i].name
    &&& new.nodes[i].kind == old.nodes[i].kind
    &&& new.nodes[i].compute_fn == old.nodes[i].compute_fn
    &&& new.nodes[i].deps == old.nodes[i].deps
    &&& if needs_recompute(old, i) {
        &&& !new.nodes[i].dirty
        &&& new.nodes[i].value matches Some(v) && computed_from(
            old.nodes[i].compute_fn.unwrap(),
            new.nodes,
            old.nodes[i].deps,
            v,
        )
    } else {
        &&& new.nodes[i].dirty == old.nodes[i].dirty
        &&& new.nodes[i].value == old.nodes[i].value
    }
}

/// `ord` lists each node that needed recomputation once, each after every listed
/// node that reaches it, and the log of `new` is that of `old` followed by one
/// entry per node of `ord`, whose duration a stopwatch measured around that
/// node's own evaluation (its timing record is kept beside the entry).
pub open spec fn log_of_recompute<V, F>(old: EngineView<V, F>, new: EngineView<V, F>, ord: Seq<usize>) -> bool {
    &&& forall|k: int| 0 <= k < ord.len() ==> #[trigger] ord[k] < old.nodes.len() && needs_recompute(old, ord[k] as int)
    &&& forall|k1: int, k2: int| 0 <= k1 < k2 < ord.len() ==> ord[k1] != ord[k2]
    &&& forall|i: int| 0 <= i < old.nodes.len() && needs_recompute(old, i) ==> #[trigger] ord.contains(i as usize)
    &&& forall|k1: int, k2: int|
        0 <= k1 < ord.len() && 0 <= k2 < ord.len() && k1 != k2 && #[trigger] reaches(
            old.edges,
            ord[k1],
            ord[k2],
        ) ==> k1 < k2
    &&& new.log.len() == old.log.len() + ord.len()
    &&& new.log.subrange(0, old.log.len() as int) == old.log
    &&& forall|k: int|
        0 <= k < ord.len() ==> (#[trigger] new.log[old.log.len() + k]).node@ == old.nodes[ord[k] as int].name
            && new.log[old.log.len() + k].recomputed
    &&& new.timings.len() == old.timings.len() + ord.len()
    &&& new.timings.subrange(0, old.timings.len() as int) == old.timings
    &&& forall|k: int|
        0 <= k < ord.len() ==> timed_alone(
            #[trigger] new.timings[old.timings.len() + k],
            ord[k],
            new.log[old.log.len() + k].duration_us,
        )
}

/// Every node of `ord` lies in a layer no deeper than the nodes listed after it.
pub open spec fn in_layer_order(dep: Seq<usize>, ord: Seq<usize>) -> bool {
    forall|k1: int, k2: int| 0 <= k1 < k2 < ord.len() ==> dep[#[trigger] ord[k1] as int] <= dep[#[trigger] ord[k2] as int]
}

/// What a recomputation does: every dirty compute node gets a value computed
/// from the final values of its dependencies and becomes clean; all else stays;
/// the log gains one entry per recomputed node, in dependency order.
pub open spec fn recompute_post<V, F: Fn(&[Option<&V>]) -> V>(old: EngineView<V, F>, new: EngineView<V, F>) -> bool {
    &&& new.nodes.len() == old.nodes.len()
    &&& new.edges == old.edges
    &&& new.index == old.index
    &&& forall|i: int| 0 <= i < old.nodes.len() ==> #[trigger] node_recomputed(old, new, i)
    &&& exists|ord: Seq<usize>| #[trigger] log_of_recompute(old, new, ord)
}

/// The state after setting input node `i` to `value`: its value is replaced,
/// every node reachable from it along edges becomes dirty, it is itself clean,
/// and nothing else changes.
pub open spec fn set_input_view<V, F>(s: EngineView<V, F>, i: int, value: V) -> EngineView<V, F> {
    EngineView {
        nodes: Seq::new(
            s.nodes.len(),
            |j: int|
                NodeView {
                    dirty: if j == i {
                        false
                    } else {
                        s.nodes[j].dirty || reaches(s.edges, i as usize, j as usize)
                    },
                    value: if j == i {
                        Some(value)
                    } else {
                        s.nodes[j].value
                    },
                    ..s.nodes[j]
                },
        ),
        ..s
    }
}

/// The state after registering a node.
pub open spec fn added_node_view<V, F>(s: EngineView<V, F>, node: NodeView<V, F>) -> EngineView<V, F> {
    EngineView {
        nodes: s.nodes.push(node),
        index: s.index.insert(node.name, s.nodes.len() as usize),
        ..s
    }
}

/// The state after recording the dependency `dep -> node`.
pub open spec fn added_dep_view<V, F>(s: EngineView<V, F>, node: usize, dep: usize) -> EngineView<V, F> {
    EngineView {
        nodes: s.nodes.update(node as int, NodeView { deps: s.nodes[node as int].deps.push(dep), ..s.nodes[node as int] }),
        edges: s.edges.push((dep, node)),
        ..s
    }
}

/// `e` reports that no node is named `name`.
pub open spec fn is_not_found(e: EngineError, name: Seq<char>) -> bool {
    e matches EngineError::NodeNotFound(s) && s@ == name
}

/// `e` reports that the dependency `dep -> node` would close a cycle.
pub open spec fn is_would_cycle(e: EngineError, dep: Seq<char>, node: Seq<char>) -> bool {
    e matches EngineError::WouldCycle { dep: d, node: n } && d@ == dep && n@ == node
}

/// `e` reports that node `name` is not an input node.
pub open spec fn is_not_input(e: EngineError, name: Seq<char>) -> bool {
    e matches EngineError::NotInput(s) && s@ == name
}

/// `e` reports that node `name` holds no value.
pub open spec fn is_no_value(e: EngineError, name: Seq<char>) -> bool {
    e matches EngineError::NoValue(s) && s@ == name
}

/// The node that `name` stands for in `s`.
pub open spec fn node_of<V, F>(s: EngineView<V, F>, name: Seq<char>) -> NodeView<V, F> {
    s.nodes[s.index[name] as int]
}

/// The dependency lists agree with the edges, every edge joins existing nodes,
/// and node indices fit in `usize`.
pub open spec fn deps_are_edges<V, F>(s: EngineView<V, F>) -> bool {
    &&& s.nodes.len() <= usize::MAX
    &&& edges_within(s.edges, s.nodes.len())
    &&& forall|i: int| 0 <= i < s.nodes.len() ==> #[trigger] s.nodes[i].deps == in_sources(s.edges, i as usize)
}

/// A dependency `d` of node `i` is the source of an edge into `i`, and exists.
pub(crate) proof fn lemma_dep_edge<V, F>(s: EngineView<V, F>, i: int, k: int)
    requires
        deps_are_edges(s),
        0 <= i < s.nodes.len(),
        0 <= k < s.nodes[i].deps.len(),
    ensures
        edge_between(s.edges, s.nodes[i].deps[k] as int, i),
        s.nodes[i].deps[k] < s.nodes.len(),
{
    let d = s.nodes[i].deps[k];
    assert(s.nodes[i].deps == in_sources(s.edges, i as usize));
    assert(in_sources(s.edges, i as usize).contains(d));
    lemma_in_sources_contains(s.edges, i as usize, d);
    let e = choose|e: int| 0 <= e < s.edges.len() && s.edges[e].0 == d && s.edges[e].1 == i as usize;
    assert(s.edges[e].0 < s.nodes.len());
}

/// A computed value stays computed from its dependencies when their values stay.
pub(crate) proof fn lemma_computed_from_frame<V, F: Fn(&[Option<&V>]) -> V>(
    f: F,
    nodes1: Seq<NodeView<V, F>>,
    nodes2: Seq<NodeView<V, F>>,
    deps: Seq<usize>,
    v: V,
)
    requires
        computed_from(f, nodes1, deps, v),
        forall|k: int| 0 <= k < deps.len() ==> nodes2[#[trigger] deps[k] as int].value == nodes1[deps[k] as int].value,
    ensures
        computed_from(f, nodes2, deps, v),
{
    let a = choose|a: &[Option<&V>]| #[trigger] f.ensures((a,), v) && args_match(a, nodes1, deps);
    assert(args_match(a, nodes2, deps)) by {
        assert forall|k: int| 0 <= k < deps.len() implies same_value(#[trigger] a@[k], nodes2[deps[k] as int].value) by {
            assert(same_value(a@[k], nodes1[deps[k] as int].value));
        }
    }
}

/// The nodes of each layer, in increasing order: `layers[d]` holds the nodes `i`
/// with `depth[i] == d + 1`, and there is a layer for every depth that occurs.
fn group_layers(depth: &Vec<usize>) -> (layers: Vec<Vec<usize>>)
    requires
        forall|i: int| 0 <= i < depth@.len() ==> 1 <= #[trigger] depth@[i],
    ensures
        forall|i: int| 0 <= i < depth@.len() ==> #[trigger] depth@[i] <= layers@.len(),
        forall|d: int, k: int|
            #![trigger layers@[d]@[k]]
            0 <= d < layers@.len() && 0 <= k < layers@[d]@.len() ==> layers@[d]@[k] < depth@.len()
                && depth@[layers@[d]@[k] as int] == d + 1,
        forall|d: int, k1: int, k2: int|
            0 <= d < layers@.len() && 0 <= k1 < k2 < layers@[d]@.len() ==> #[trigger] layers@[d]@[k1]
                < #[trigger] layers@[d]@[k2],
        forall|i: int| 0 <= i < depth@.len() ==> #[trigger] layers@[depth@[i] - 1]@.contains(i as usize),
{
    let n = depth.len();
    let mut max_depth: usize = 0;
    let mut i: usize = 0;
    while i < n
        invariant
            n == depth@.len(),
            i <= n,
            forall|j: int| 0 <= j < i ==> #[trigger] depth@[j] <= max_depth,
        decreases n - i,
    {
        if depth[i] > max_depth {
            max_depth = depth[i];
        }
        i = i + 1;
    }
    let mut layers: Vec<Vec<usize>> = Vec::new();
    while layers.len() < max_depth
        invariant
            layers@.len() <= max_depth,
            forall|d: int| 0 <= d < layers@.len() ==> (#[trigger] layers@[d])@.len() == 0,
        decreases max_depth - layers@.len(),
    {
        layers.push(Vec::new());
    }
    let mut i: usize = 0;
    while i < n
        invariant
            n == depth@.len(),
            i <= n,
            layers@.len() == max_depth,
            forall|j: int| 0 <= j < n ==> 1 <= #[trigger] depth@[j] <= max_depth,
            forall|d: int, k: int|
                #![trigger layers@[d]@[k]]
                0 <= d < layers@.len() && 0 <= k < layers@[d]@.len() ==> layers@[d]@[k] < i
                    && depth@[layers@[d]@[k] as int] == d + 1,
            forall|d: int, k1: int, k2: int|
                0 <= d < layers@.len() && 0 <= k1 < k2 < layers@[d]@.len() ==> #[trigger] layers@[d]@[k1]
                    < #[trigger] layers@[d]@[k2],
            forall|j: int| 0 <= j < i ==> #[trigger] layers@[depth@[j] - 1]@.contains(j as usize),
        decreases n - i,
    {
        let d = depth[i] - 1;
        let ghost before = layers@;
        layers[d].push(i);
        proof {
            assert(layers@[d as int]@ == before[d as int]@.push(i));
            assert forall|e: int| 0 <= e < layers@.len() && e != d implies #[trigger] layers@[e] == before[e] by {}
            assert forall|j: int| 0 <= j < i + 1 implies #[trigger] layers@[depth@[j] - 1]@.contains(j as usize) by {
                if j < i {
                    let c = depth@[j] - 1;
                    assert(before[c]@.contains(j as usize));
                    let k = choose|k: int| 0 <= k < before[c]@.len() && before[c]@[k] == j as usize;
                    assert(layers@[c]@[k] == j as usize);
                } else {
                    assert(layers@[d as int]@[before[d as int]@.len() as int] == i);
                }
            }
        }
        i = i + 1;
    }
    layers
}

/// In a topological order, the node at the source of an edge comes first.
proof fn lemma_topo_edge(order: Seq<usize>, n: nat, edges: Seq<(usize, usize)>, p: int, q: int)
    requires
        is_topo_order(order, n, edges),
        0 <= p < order.len(),
        0 <= q < order.len(),
        edge_between(edges, order[p] as int, order[q] as int),
    ensures
        p < q,
{
    let e = choose|e: int| 0 <= e < edges.len() && edges[e].0 == order[p] && edges[e].1 == order[q];
    assert(respects_edge(order, edges, e, p, q));
}

impl<V, F: Fn(&[Option<&V>]) -> V> DeltaForge<V, F> {
    /// The engine's internal invariant: the petgraph graph has one node per engine
    /// node, holds no cycle, and agrees with each node's dependency list; names
    /// index existing nodes of that name; exactly the compute nodes have a
    /// function, and each function accepts any arguments.
    pub closed spec fn wf(&self) -> bool {
        &&& graph_node_count(self.graph) == self.nodes@.len()
        &&& self.timings@.len() == self.log@.len()
        &&& self.nodes@.len() <= u32::MAX
        &&& edges_within(graph_edges(self.graph), self.nodes@.len())
        &&& !has_cycle(graph_edges(self.graph))
        &&& forall|i: int|
            0 <= i < self.nodes@.len() ==> #[trigger] self.nodes@[i].deps@ == in_sources(
                graph_edges(self.graph),
                i as usize,
            )
        &&& forall|k: Seq<char>| #[trigger]
            self.index@.contains_key(k) ==> self.index@[k] < self.nodes@.len()
                && self.nodes@[self.index@[k] as int].name@ == k
        &&& forall|i: int|
            0 <= i < self.nodes@.len() ==> (#[trigger] self.nodes@[i].kind == NodeKind::Compute
                <==> self.nodes@[i].compute_fn is Some)
        &&& forall|i: int|
            0 <= i < self.nodes@.len() ==> (#[trigger] self.nodes@[i].compute_fn matches Some(f)
                ==> accepts_all(f))
    }

    /// The engine's structure laws: the dependency graph is acyclic, its edges join
    /// existing nodes, each node's dependency list is exactly the sources of its
    /// incoming edges in the order they were added, every name indexes a node of
    /// that name, and exactly the compute nodes have a function.
    pub proof fn law_structure(&self)
        requires
            self.wf(),
        ensures
            self@.timings.len() == self@.log.len(),
            !has_cycle(self@.edges),
            edges_within(self@.edges, self@.nodes.len()),
            self@.nodes.len() <= u32::MAX,
            forall|i: int|
                0 <= i < self@.nodes.len() ==> #[trigger] self@.nodes[i].deps == in_sources(self@.edges, i as usize),
            forall|k: Seq<char>| #[trigger]
                self@.index.contains_key(k) ==> self@.index[k] < self@.nodes.len() && node_of(self@, k).name == k,
            forall|i: int|
                0 <= i < self@.nodes.len() ==> (#[trigger] self@.nodes[i].kind == NodeKind::Compute
                    <==> self@.nodes[i].compute_fn is Some),
    {
        assert forall|i: int| 0 <= i < self@.nodes.len() implies #[trigger] self@.nodes[i].deps == in_sources(self@.edges, i as usize) by {
            assert(self.nodes@[i].deps@ == in_sources(graph_edges(self.graph), i as usize));
        }
        assert forall|i: int| 0 <= i < self@.nodes.len() implies (#[trigger] self@.nodes[i].kind == NodeKind::Compute
            <==> self@.nodes[i].compute_fn is Some) by {
            assert(self.nodes@[i].kind == NodeKind::Compute <==> self.nodes@[i].compute_fn is Some);
        }
    }

    /// An empty engine.
    pub fn new() -> (r: Self)
        ensures
            r.wf(),
            r@.nodes == Seq::<NodeView<V, F>>::empty(),
            r@.edges == Seq::<(usize, usize)>::empty(),
            r@.index == Map::<Seq<char>, usize>::empty(),
            r@.log == Seq::<LogEntry>::empty(),
            r@.timings == Seq::<Seq<TimeEvent>>::empty(),
    {
        let r = DeltaForge {
            graph: graph_new(),
            nodes: Vec::new(),
            index: StringHashMap::new(),
            log: Log::default(),
            timings: Vec::new(),
        };
        assert(r@.timings =~= Seq::<Seq<TimeEvent>>::empty());
        assert(r@.nodes =~= Seq::<NodeView<V, F>>::empty());
        assert(!has_cycle(graph_edges(r.graph))) by {
            let edges = graph_edges(r.graph);
            if has_cycle(edges) {
                let p = choose|p: Seq<usize>| #[trigger] is_path(edges, p) && p.len() >= 2 && p[0] == p.last();
                assert(path_step(edges, p, 0));
            }
        }
        r
    }

    /// Appends `node` to the graph and indexes it under its name.
    fn add_node(&mut self, node: Node<V, F>) -> (i: usize)
        requires
            old(self).wf(),
            old(self)@.nodes.len() < u32::MAX,
            node.deps@ == Seq::<usize>::empty(),
            node.kind == NodeKind::Compute <==> node.compute_fn is Some,
            node.compute_fn matches Some(f) ==> accepts_all(f),
        ensures
            final(self).wf(),
            i == old(self)@.nodes.len(),
            final(self)@ == added_node_view(old(self)@, node.view()),
    {
        let i = graph_add_node(&mut self.graph);
        let key = node.name.clone();
        self.nodes.push(node);
        self.index.insert(key, i);
        proof {
            let edges = graph_edges(self.graph);
            if in_sources(edges, i).len() > 0 {
                let d = in_sources(edges, i)[0];
                lemma_in_sources_contains(edges, i, d);
                assert(in_sources(edges, i).contains(d));
                let e = choose|e: int| 0 <= e < edges.len() && edges[e].0 == d && edges[e].1 == i;
                assert(edges[e].1 < i);
            }
            assert(in_sources(edges, i) =~= Seq::<usize>::empty());
            assert forall|j: int| 0 <= j < self.nodes@.len() implies #[trigger] self.nodes@[j].deps@ == in_sources(
                edges,
                j as usize,
            ) by {
                if j < i {
                    assert(self.nodes@[j] == old(self).nodes@[j]);
                    assert(old(self).nodes@[j].deps@ == in_sources(graph_edges(old(self).graph), j as usize));
                } else {
                    assert(self.nodes@[j].deps@ == node.deps@);
                }
            }
            assert(self@.nodes =~= old(self)@.nodes.push(node.view()));
            assert(self@ == added_node_view(old(self)@, node.view()));
        }
        i
    }

    /// Register a named input node (user sets the value via `set_input`).
    pub fn input(&mut self, name: &str) -> (i: usize)
        requires
            old(self).wf(),
            old(self)@.nodes.len() < u32::MAX,
        ensures
            final(self).wf(),
            i == old(self)@.nodes.len(),
            final(self)@ == added_node_view(
                old(self)@,
                NodeView {
                    name: name@,
                    kind: NodeKind::Input,
                    dirty: false,
                    value: None,
                    compute_fn: None,
                    deps: Seq::empty(),
                },
            ),
    {
        let node = Node {
            name: name.to_owned(),
            kind: NodeKind::Input,
            dirty: false,
            value: None,
            compute_fn: None,
            deps: Vec::new(),
        };
        assert(node.deps@ =~= Seq::<usize>::empty());
        self.add_node(node)
    }

    /// Register a named compute node with its function.
    ///
    /// `f` receives a slice of its dependencies' values (in dependency order).
    pub fn compute(&mut self, name: &str, f: F) -> (i: usize)
        requires
            old(self).wf(),
            old(self)@.nodes.len() < u32::MAX,
            accepts_all(f),
        ensures
            final(self).wf(),
            i == old(self)@.nodes.len(),
            final(self)@ == added_node_view(
                old(self)@,
                NodeView {
                    name: name@,
                    kind: NodeKind::Compute,
                    dirty: true,
                    value: None,
                    compute_fn: Some(f),
                    deps: Seq::empty(),
                },
            ),
    {
        let node = Node {
            name: name.to_owned(),
            kind: NodeKind::Compute,
            dirty: true,
            value: None,
            compute_fn: Some(f),
            deps: Vec::new(),
        };
        assert(node.deps@ =~= Seq::<usize>::empty());
        self.add_node(node)
    }

    /// The index of the node named `name`.
    fn node_idx(&self, name: &str) -> (r: Result<usize, EngineError>)
        requires
            self.wf(),
        ensures
            r is Ok <==> self@.index.contains_key(name@),
            r matches Ok(i) ==> i == self@.index[name@] && i < self@.nodes.len(),
            r matches Err(e) ==> is_not_found(e, name@),
    {
        match self.index.get(name) {
            Some(i) => Ok(*i),
            None => Err(EngineError::NodeNotFound(name.to_owned())),
        }
    }

    /// Add a dependency edge: `dep -> node` (node depends on dep). A dependency
    /// that would close a cycle is refused and leaves the engine as it was.
    pub fn add_dep(&mut self, node: &str, dep: &str) -> (r: Result<(), EngineError>)
        requires
            old(self).wf(),
            old(self)@.edges.len() < u32::MAX,
        ensures
            final(self).wf(),
            r is Ok <==> old(self)@.index.contains_key(node@) && old(self)@.index.contains_key(dep@)
                && !has_cycle(old(self)@.edges.push((old(self)@.index[dep@], old(self)@.index[node@]))),
            r is Ok ==> final(self)@ == added_dep_view(
                old(self)@,
                old(self)@.index[node@],
                old(self)@.index[dep@],
            ),
            r is Err ==> final(self)@ == old(self)@,
            r matches Err(e) ==> {
                ||| !old(self)@.index.contains_key(node@) && is_not_found(e, node@)
                ||| old(self)@.index.contains_key(node@) && !old(self)@.index.contains_key(dep@)
                    && is_not_found(e, dep@)
                ||| old(self)@.index.contains_key(node@) && old(self)@.index.contains_key(dep@)
                    && is_would_cycle(e, dep@, node@)
            },
    {
        let node_idx = self.node_idx(node)?;
        let dep_idx = self.node_idx(dep)?;
        let ghost old_edges = graph_edges(self.graph);
        graph_add_edge(&mut self.graph, dep_idx, node_idx);
        if graph_is_cyclic(&self.graph) {
            // Remove the edge we just added to restore a valid state
            let found = graph_find_edge(&self.graph, dep_idx, node_idx);
            let ghost with_edge = graph_edges(self.graph);
            match found {
                Some(eid) => {
                    graph_remove_edge(&mut self.graph, eid);
                    assert(graph_edges(self.graph) =~= old_edges) by {
                        assert(with_edge[eid as int] == with_edge.last());
                        assert forall|k: int| 0 <= k < old_edges.len() implies graph_edges(self.graph)[k] == old_edges[k] by {
                            assert(with_edge[k] == old_edges[k]);
                        }
                    }
                },
                None => {
                    assert(with_edge[old_edges.len() as int] == (dep_idx, node_idx));
                    assert(edge_between(with_edge, dep_idx as int, node_idx as int));
                },
            }
            assert(self@ == old(self)@);
            return Err(EngineError::WouldCycle { dep: dep.to_owned(), node: node.to_owned() });
        }
        self.nodes[node_idx].deps.push(dep_idx);
        proof {
            let edges = graph_edges(self.graph);
            assert(edges == old_edges.push((dep_idx, node_idx)));
            assert(self.nodes@.len() == old(self).nodes@.len());
            assert(edges[old_edges.len() as int] == (dep_idx, node_idx));
            assert forall|i: int| 0 <= i < self.nodes@.len() implies #[trigger] self.nodes@[i].deps@ == in_sources(
                edges,
                i as usize,
            ) by {
                lemma_in_sources_push(old_edges, dep_idx, node_idx, i as usize);
                if i != node_idx {
                    assert(self.nodes@[i] == old(self).nodes@[i]);
                } else {
                    assert(self.nodes@[i].deps@ == old(self).nodes@[i].deps@.push(dep_idx));
                }
                assert(old(self).nodes@[i].deps@ == in_sources(old_edges, i as usize));
            }
            assert(edges_within(edges, self.nodes@.len())) by {
                assert forall|e: int| #![trigger edges[e]] 0 <= e < edges.len() implies edges[e].0 < self.nodes@.len() && edges[e].1 < self.nodes@.len() by {
                    if e < old_edges.len() {
                        assert(edges[e] == old_edges[e]);
                    }
                }
            }
            assert(self@.nodes =~= added_dep_view(old(self)@, node_idx, dep_idx).nodes);
        }
        Ok(())
    }

    /// Set an input node's value and mark all downstream nodes dirty.
    pub fn set_input(&mut self, name: &str, value: V) -> (r: Result<(), EngineError>)
        requires
            old(self).wf(),
        ensures
            final(self).wf(),
            r is Ok <==> old(self)@.index.contains_key(name@) && node_of(old(self)@, name@).kind
                == NodeKind::Input,
            r is Ok ==> final(self)@ == set_input_view(old(self)@, old(self)@.index[name@] as int, value),
            r is Err ==> final(self)@ == old(self)@,
            r matches Err(e) ==> {
                ||| !old(self)@.index.contains_key(name@) && is_not_found(e, name@)
                ||| old(self)@.index.contains_key(name@) && is_not_input(e, name@)
            },
    {
        let idx = self.node_idx(name)?;
        if self.nodes[idx].kind != NodeKind::Input {
            return Err(EngineError::NotInput(name.to_owned()));
        }
        let ghost before = self.nodes@;
        self.nodes[idx].value = Some(value);
        let ghost set = self.nodes@;
        propagate_dirty(&self.graph, &mut self.nodes, idx);
        let ghost spread = self.nodes@;
        // Input itself doesn't need recomputation, clear its dirty flag
        self.nodes[idx].dirty = false;
        proof {
            let edges = graph_edges(self.graph);
            assert(dirty_flags(node_views(set)) =~= dirty_flags(node_views(before))) by {
                assert forall|j: int| 0 <= j < before.len() implies set[j].dirty == before[j].dirty by {
                    if j != idx {
                        assert(set[j] == before[j]);
                    }
                }
            }
            let expected = set_input_view(old(self)@, idx as int, value);
            assert forall|j: int| 0 <= j < self.nodes@.len() implies #[trigger] self.nodes@[j].view() == expected.nodes[j] by {
                assert(spread[j].view() == with_dirty(
                    set[j].view(),
                    propagated(edges, dirty_flags(node_views(set)), idx)[j],
                ));
                if j != idx {
                    assert(self.nodes@[j] == spread[j]);
                    assert(set[j] == before[j]);
                }
            }
            assert(self@.nodes =~= expected.nodes);
            assert forall|j: int| #![trigger self.nodes@[j]] 0 <= j < self.nodes@.len() implies {
                &&& self.nodes@[j].deps@ == old(self).nodes@[j].deps@
                &&& self.nodes@[j].name@ == old(self).nodes@[j].name@
                &&& self.nodes@[j].kind == old(self).nodes@[j].kind
                &&& self.nodes@[j].compute_fn == old(self).nodes@[j].compute_fn
            } by {
                assert(self.nodes@[j].view() == expected.nodes[j]);
            }
        }
        Ok(())
    }

    /// Get the value of a node (a clone of it).
    pub fn get(&self, name: &str) -> (r: Result<V, EngineError>)
        where
            V: Clone,
        requires
            self.wf(),
        ensures
            r is Ok <==> self@.index.contains_key(name@) && node_of(self@, name@).value is Some,
            r matches Ok(v) ==> cloned(node_of(self@, name@).value.unwrap(), v),
            r matches Err(e) ==> {
                ||| !self@.index.contains_key(name@) && is_not_found(e, name@)
                ||| self@.index.contains_key(name@) && is_no_value(e, name@)
            },
    {
        let idx = self.node_idx(name)?;
        match &self.nodes[idx].value {
            Some(v) => Ok(v.clone()),
            None => Err(EngineError::NoValue(name.to_owned())),
        }
    }

    /// Calls the function of compute node `i` on the values of its dependencies,
    /// and measures how long that took in microseconds, with a stopwatch started
    /// for this node alone.
    fn eval_node(&self, i: usize) -> (r: (V, u64, Stopwatch))
        requires
            self.wf(),
            i < self@.nodes.len(),
            self@.nodes[i as int].kind == NodeKind::Compute,
        ensures
            computed_from(
                self@.nodes[i as int].compute_fn.unwrap(),
                self@.nodes,
                self@.nodes[i as int].deps,
                r.0,
            ),
            timed_alone(r.2@, i, r.1),
    {
        let mut watch = Stopwatch::new();
        let t0 = watch.start();
        let node = &self.nodes[i];
        let mut args: Vec<Option<&V>> = Vec::new();
        let mut k: usize = 0;
        while k < node.deps.len()
            invariant
                self.wf(),
                i < self@.nodes.len(),
                node == self.nodes@[i as int],
                k <= node.deps@.len(),
                args@.len() == k,
                forall|j: int| 0 <= j < k ==> same_value(#[trigger] args@[j], self@.nodes[node.deps@[j] as int].value),
            decreases node.deps@.len() - k,
        {
            let d = node.deps[k];
            proof {
                { self.law_structure(); lemma_dep_edge(self@, i as int, k as int); }
            }
            let v: Option<&V> = match &self.nodes[d].value {
                Some(x) => Some(x),
                None => None,
            };
            args.push(v);
            k = k + 1;
        }
        let f = node.compute_fn.as_ref().unwrap();
        let slice = args.as_slice();
        let value = watch.call(i, f, slice);
        let micros = watch.micros_since(&t0);
        proof {
            assert(args_match(slice, self@.nodes, node.deps@));
            assert(timed_alone(watch@, i, micros));
        }
        (value, micros, watch)
    }

    /// Topological recompute: runs dirty Compute nodes in dependency order.
    pub fn topo_recompute(&mut self) -> (r: Result<(), EngineError>)
        requires
            old(self).wf(),
        ensures
            final(self).wf(),
            r is Ok,
            recompute_post(old(self)@, final(self)@),
    {
        let order = match graph_toposort(&self.graph) {
            Ok(order) => order,
            Err(_) => return Err(EngineError::CycleDetected),
        };
        let ghost s0 = self@;
        let ghost n = s0.nodes.len();
        let ghost edges = s0.edges;
        let ghost mut ord: Seq<usize> = Seq::empty();
        let ghost mut ord_pos: Seq<int> = Seq::empty();
        let mut pos: usize = 0;
        while pos < order.len()
            invariant
                self.wf(),
                s0 == old(self)@,
                n == s0.nodes.len(),
                edges == s0.edges,
                self@.nodes.len() == n,
                self@.edges == edges,
                self@.index == s0.index,
                is_topo_order(order@, n, edges),
                pos <= order@.len(),
                forall|i: int|
                    #![trigger self@.nodes[i]]
                    0 <= i < n ==> {
                        &&& self@.nodes[i].name == s0.nodes[i].name
                        &&& self@.nodes[i].kind == s0.nodes[i].kind
                        &&& self@.nodes[i].compute_fn == s0.nodes[i].compute_fn
                        &&& self@.nodes[i].deps == s0.nodes[i].deps
                    },
                forall|p: int| 0 <= p < pos ==> #[trigger] node_recomputed(s0, self@, order@[p] as int),
                forall|p: int|
                    #![trigger order@[p]]
                    pos <= p < order@.len() ==> {
                        &&& self@.nodes[order@[p] as int].dirty == s0.nodes[order@[p] as int].dirty
                        &&& self@.nodes[order@[p] as int].value == s0.nodes[order@[p] as int].value
                    },
                ord.len() == ord_pos.len(),
                forall|k: int|
                    #![trigger ord_pos[k]]
                    0 <= k < ord.len() ==> {
                        &&& 0 <= ord_pos[k]
                        &&& ord_pos[k] < pos
                        &&& ord[k] == order@[ord_pos[k]]
                        &&& needs_recompute(s0, ord[k] as int)
                    },
                forall|k1: int, k2: int| 0 <= k1 < k2 < ord.len() ==> ord_pos[k1] < ord_pos[k2],
                forall|p: int|
                    0 <= p < pos && needs_recompute(s0, order@[p] as int) ==> exists|k: int|
                        0 <= k < ord.len() && #[trigger] ord_pos[k] == p,
                self@.log.len() == s0.log.len() + ord.len(),
                self@.log.subrange(0, s0.log.len() as int) == s0.log,
                forall|k: int|
                    0 <= k < ord.len() ==> (#[trigger] self@.log[s0.log.len() + k]).node@
                        == s0.nodes[ord[k] as int].name && self@.log[s0.log.len() + k].recomputed,
                self@.timings.len() == s0.timings.len() + ord.len(),
                self@.timings.subrange(0, s0.timings.len() as int) == s0.timings,
                forall|k: int|
                    0 <= k < ord.len() ==> timed_alone(
                        #[trigger] self@.timings[s0.timings.len() + k],
                        ord[k],
                        self@.log[s0.log.len() + k].duration_us,
                    ),
            decreases order@.len() - pos,
        {
            let idx = order[pos];
            if !self.nodes[idx].dirty || self.nodes[idx].kind == NodeKind::Input {
                proof {
                    assert(!needs_recompute(s0, idx as int));
                    assert(node_recomputed(s0, self@, order@[pos as int] as int));
                    assert forall|k: int| #![trigger ord_pos[k]] 0 <= k < ord.len() implies {
                        &&& 0 <= ord_pos[k]
                        &&& ord_pos[k] < pos + 1
                        &&& ord[k] == order@[ord_pos[k]]
                        &&& needs_recompute(s0, ord[k] as int)
                    } by {}
                }
            } else {
            if self.nodes[idx].compute_fn.is_none() {
                return Err(EngineError::MissingFunction(self.nodes[idx].name.clone()));
            }
            let ghost cur = self@;
            let ghost cur_nodes = self.nodes@;
            let (value, elapsed, watch) = self.eval_node(idx);
            let name = self.nodes[idx].name.clone();
            self.nodes[idx].value = Some(value);
            self.nodes[idx].dirty = false;
            self.log.push(LogEntry { node: name, recomputed: true, duration_us: elapsed });
            let ghost watch_record = watch@;
            let ghost cur_watches = self.timings@;
            self.timings.push(watch);
            proof {
                let new = self@;
                assert(new.timings =~= cur.timings.push(watch_record)) by {
                    assert(self.timings@ == cur_watches.push(watch));
                }
                assert(needs_recompute(s0, idx as int));
                assert(order@[pos as int] == idx);
                assert forall|j: int| #![trigger self.nodes@[j]] 0 <= j < n && j != idx implies self.nodes@[j] == cur_nodes[j] by {}
                assert forall|j: int| #![trigger new.nodes[j]] 0 <= j < n && j != idx implies new.nodes[j] == cur.nodes[j] by {
                    assert(self.nodes@[j] == cur_nodes[j]);
                }
                assert(new.nodes[idx as int] == (NodeView { value: Some(value), dirty: false, ..cur.nodes[idx as int] }));
                assert(self.wf()) by {
                    assert forall|j: int| #![trigger self.nodes@[j]] 0 <= j < n implies {
                        &&& self.nodes@[j].deps@ == cur_nodes[j].deps@
                        &&& self.nodes@[j].name@ == cur_nodes[j].name@
                        &&& self.nodes@[j].kind == cur_nodes[j].kind
                        &&& self.nodes@[j].compute_fn == cur_nodes[j].compute_fn
                    } by {}
                }
                // The new value is computed from values that stay.
                assert forall|k: int| 0 <= k < s0.nodes[idx as int].deps.len() implies new.nodes[#[trigger] s0.nodes[idx as int].deps[k] as int].value
                    == cur.nodes[s0.nodes[idx as int].deps[k] as int].value by {
                    { self.law_structure(); lemma_dep_edge(self@, idx as int, k); }
                    let d = s0.nodes[idx as int].deps[k];
                    if d == idx {
                        lemma_topo_edge(order@, n, edges, pos as int, pos as int);
                    }
                }
                lemma_computed_from_frame(s0.nodes[idx as int].compute_fn.unwrap(), cur.nodes, new.nodes, s0.nodes[idx as int].deps, value);
                assert(node_recomputed(s0, new, idx as int));
                assert forall|p: int| 0 <= p < pos + 1 implies #[trigger] node_recomputed(s0, new, order@[p] as int) by {
                    if p < pos {
                        let i = order@[p] as int;
                        assert(node_recomputed(s0, cur, i));
                        assert(i != idx);
                        assert(new.nodes[i] == cur.nodes[i]);
                        if needs_recompute(s0, i) {
                            let v = cur.nodes[i].value.unwrap();
                            assert forall|k: int| 0 <= k < s0.nodes[i].deps.len() implies new.nodes[#[trigger] s0.nodes[i].deps[k] as int].value
                                == cur.nodes[s0.nodes[i].deps[k] as int].value by {
                                { self.law_structure(); lemma_dep_edge(self@, i, k); }
                                let d = s0.nodes[i].deps[k];
                                if d == idx {
                                    lemma_topo_edge(order@, n, edges, pos as int, p);
                                }
                            }
                            lemma_computed_from_frame(s0.nodes[i].compute_fn.unwrap(), cur.nodes, new.nodes, s0.nodes[i].deps, v);
                        }
                    }
                }
                assert forall|p: int| #![trigger order@[p]] pos + 1 <= p < order@.len() implies {
                    &&& new.nodes[order@[p] as int].dirty == s0.nodes[order@[p] as int].dirty
                    &&& new.nodes[order@[p] as int].value == s0.nodes[order@[p] as int].value
                } by {
                    assert(order@[p] != order@[pos as int]);
                }
                let old_ord = ord;
                let old_ord_pos = ord_pos;
                ord = ord.push(idx);
                ord_pos = ord_pos.push(pos as int);
                assert forall|k1: int, k2: int| 0 <= k1 < k2 < ord.len() implies ord_pos[k1] < ord_pos[k2] by {
                    if k2 == old_ord.len() {
                        assert(old_ord[k1] == ord[k1]);
                        assert(old_ord_pos[k1] < pos);
                    }
                }
                assert forall|p: int| 0 <= p < pos + 1 && needs_recompute(s0, order@[p] as int) implies exists|k: int|
                    0 <= k < ord.len() && #[trigger] ord_pos[k] == p by {
                    if p < pos {
                        let k = choose|k: int| 0 <= k < old_ord.len() && #[trigger] old_ord_pos[k] == p;
                        assert(ord_pos[k] == p);
                    } else {
                        assert(ord_pos[old_ord.len() as int] == p);
                    }
                }
                assert forall|k: int| #![trigger ord_pos[k]] 0 <= k < ord.len() implies {
                    &&& 0 <= ord_pos[k]
                    &&& ord_pos[k] < pos + 1
                    &&& ord[k] == order@[ord_pos[k]]
                    &&& needs_recompute(s0, ord[k] as int)
                } by {
                    if k < old_ord.len() {
                        assert(ord[k] == old_ord[k]);
                        assert(ord_pos[k] == old_ord_pos[k]);
                        assert(old_ord[k] == order@[old_ord_pos[k]]);
                    } else {
                        assert(ord[k] == idx);
                        assert(ord_pos[k] == pos);
                    }
                }
                assert(new.log == cur.log.push(LogEntry { node: name, recomputed: true, duration_us: elapsed }));
                assert(new.log.subrange(0, s0.log.len() as int) =~= s0.log) by {
                    assert(cur.log.subrange(0, s0.log.len() as int) == s0.log);
                    assert forall|k: int| 0 <= k < s0.log.len() implies new.log[k] == cur.log[k] by {}
                }
                assert forall|k: int| 0 <= k < ord.len() implies (#[trigger] new.log[s0.log.len() + k]).node@
                    == s0.nodes[ord[k] as int].name && new.log[s0.log.len() + k].recomputed by {
                    if k < old_ord.len() {
                        assert(new.log[s0.log.len() + k] == cur.log[s0.log.len() + k]);
                        assert(ord[k] == old_ord[k]);
                    }
                }
                assert(new.timings.subrange(0, s0.timings.len() as int) =~= s0.timings) by {
                    assert(cur.timings.subrange(0, s0.timings.len() as int) == s0.timings);
                    assert forall|k: int| 0 <= k < s0.timings.len() implies new.timings[k] == cur.timings[k] by {}
                }
                assert forall|k: int| 0 <= k < ord.len() implies timed_alone(
                    #[trigger] new.timings[s0.timings.len() + k],
                    ord[k],
                    new.log[s0.log.len() + k].duration_us,
                ) by {
                    if k < old_ord.len() {
                        assert(new.log[s0.log.len() + k] == cur.log[s0.log.len() + k]);
                        assert(new.timings[s0.timings.len() + k] == cur.timings[s0.timings.len() + k]);
                        assert(ord[k] == old_ord[k]);
                    } else {
                        assert(new.timings[s0.timings.len() + k] == watch_record);
                    }
                }
            }
            }
            pos = pos + 1;
        }
        proof {
            let fin = self@;
            assert forall|i: int| 0 <= i < n implies #[trigger] node_recomputed(s0, fin, i) by {
                assert(order@.contains(i as usize));
                let p = choose|p: int| 0 <= p < order@.len() && order@[p] == i as usize;
                assert(node_recomputed(s0, fin, order@[p] as int));
            }
            assert forall|i: int| 0 <= i < n && needs_recompute(s0, i) implies #[trigger] ord.contains(i as usize) by {
                assert(order@.contains(i as usize));
                let p = choose|p: int| 0 <= p < order@.len() && order@[p] == i as usize;
                let k = choose|k: int| 0 <= k < ord.len() && #[trigger] ord_pos[k] == p;
                assert(ord[k] == i);
            }
            assert forall|k1: int, k2: int| 0 <= k1 < k2 < ord.len() implies ord[k1] != ord[k2] by {
                assert(ord[k1] == order@[ord_pos[k1]]);
                assert(ord[k2] == order@[ord_pos[k2]]);
            }
            assert(edges_within(edges, n));
            assert forall|k1: int, k2: int|
                0 <= k1 < ord.len() && 0 <= k2 < ord.len() && k1 != k2 && #[trigger] reaches(
                    edges,
                    ord[k1],
                    ord[k2],
                ) implies k1 < k2 by {
                let p = choose|p: Seq<usize>| #[trigger] is_path(edges, p) && p[0] == ord[k1] && p.last() == ord[k2];
                assert(ord[k1] == order@[ord_pos[k1]]);
                assert(ord[k2] == order@[ord_pos[k2]]);
                if p.len() == 1 {
                    if k1 < k2 {
                        assert(ord_pos[k1] < ord_pos[k2]);
                    } else {
                        assert(ord_pos[k2] < ord_pos[k1]);
                    }
                } else {
                    lemma_topo_path(order@, n, edges, p, ord_pos[k1], ord_pos[k2]);
                    if k1 > k2 {
                        assert(ord_pos[k2] < ord_pos[k1]);
                    }
                }
            }
            assert forall|k: int| 0 <= k < ord.len() implies #[trigger] ord[k] < s0.nodes.len() && needs_recompute(s0, ord[k] as int) by {
                assert(0 <= ord_pos[k] < order@.len());
            }
            assert(log_of_recompute(s0, fin, ord));
        }
        Ok(())
    }

    /// The layer of every node: one more than the deepest of its dependencies
    /// (so 1 for a node without dependencies), computed along `order`.
    fn node_depths(&self, order: &Vec<usize>) -> (depth: Vec<usize>)
        requires
            self.wf(),
            is_topo_order(order@, self@.nodes.len(), self@.edges),
        ensures
            depth@.len() == self@.nodes.len(),
            forall|i: int| 0 <= i < depth@.len() ==> 1 <= #[trigger] depth@[i] <= self@.nodes.len(),
            forall|e: int|
                0 <= e < self@.edges.len() ==> depth@[#[trigger] self@.edges[e].0 as int]
                    < depth@[self@.edges[e].1 as int],
            is_depth_map(self@.edges, self@.nodes.len(), depth@),
    {
        let ghost edges = self@.edges;
        let n = self.nodes.len();
        let mut depth: Vec<usize> = Vec::new();
        while depth.len() < n
            invariant
                depth@.len() <= n,
                forall|i: int| 0 <= i < depth@.len() ==> depth@[i] == 0,
            decreases n - depth@.len(),
        {
            depth.push(0);
        }
        let mut pos: usize = 0;
        while pos < order.len()
            invariant
                self.wf(),
                edges == self@.edges,
                n == self@.nodes.len(),
                is_topo_order(order@, n as nat, edges),
                depth@.len() == n,
                pos <= order@.len(),
                forall|i: int| 0 <= i < n ==> #[trigger] depth@[i] <= pos,
                forall|p: int| #![trigger order@[p]] pos <= p < order@.len() ==> depth@[order@[p] as int] == 0,
                forall|p: int| #![trigger order@[p]] 0 <= p < pos ==> depth@[order@[p] as int] >= 1,
                forall|p: int, e: int|
                    0 <= p < pos && 0 <= e < edges.len() && edges[e].1 == #[trigger] order@[p]
                        ==> depth@[#[trigger] edges[e].0 as int] < depth@[order@[p] as int],
                forall|p: int| #![trigger order@[p]] 0 <= p < pos ==> depth@[order@[p] as int] == 1
                    || exists|e: int| 0 <= e < edges.len() && edges[e].1 == order@[p]
                        && #[trigger] depth@[edges[e].0 as int] + 1 == depth@[order@[p] as int],
            decreases order@.len() - pos,
        {
            let idx = order[pos];
            let nbrs = graph_neighbors(&self.graph, idx, EdgeDirection::Incoming);
            proof {
                broadcast use vstd::seq_lib::group_to_multiset_ensures;
                assert forall|j: int| 0 <= j < nbrs@.len() implies #[trigger] nbrs@[j] < n by {
                    assert(nbrs@.contains(nbrs@[j]));
                    assert(nbrs@.to_multiset().count(nbrs@[j]) > 0);
                    assert(in_sources(edges, idx).contains(nbrs@[j]));
                    lemma_in_sources_contains(edges, idx, nbrs@[j]);
                    let e = choose|e: int| 0 <= e < edges.len() && edges[e].0 == nbrs@[j] && edges[e].1 == idx;
                    assert(edges[e].0 < n);
                }
            }
            let mut max_dep: usize = 0;
            let mut k: usize = 0;
            while k < nbrs.len()
                invariant
                    depth@.len() == n,
                    k <= nbrs@.len(),
                    max_dep <= pos,
                    forall|i: int| 0 <= i < n ==> #[trigger] depth@[i] <= pos,
                    forall|j: int| 0 <= j < nbrs@.len() ==> #[trigger] nbrs@[j] < n,
                    forall|j: int| 0 <= j < k ==> depth@[#[trigger] nbrs@[j] as int] <= max_dep,
                    max_dep == 0 || exists|j: int| 0 <= j < k && depth@[#[trigger] nbrs@[j] as int] == max_dep,
                decreases nbrs@.len() - k,
            {
                let d = nbrs[k];
                if depth[d] > max_dep {
                    max_dep = depth[d];
                }
                k = k + 1;
            }
            let ghost before = depth@;
            depth.set(idx, max_dep + 1);
            proof {
                broadcast use vstd::seq_lib::group_to_multiset_ensures;
                assert(order@[pos as int] == idx);
                assert forall|p: int| #![trigger order@[p]] pos + 1 <= p < order@.len() implies depth@[order@[p] as int] == 0 by {
                    assert(order@[p] != order@[pos as int]);
                }
                assert forall|p: int| #![trigger order@[p]] 0 <= p < pos + 1 implies depth@[order@[p] as int] >= 1 by {
                    if p < pos {
                        assert(order@[p] != order@[pos as int]);
                    }
                }
                assert forall|p: int, e: int|
                    0 <= p < pos + 1 && 0 <= e < edges.len() && edges[e].1 == #[trigger] order@[p]
                        implies depth@[#[trigger] edges[e].0 as int] < depth@[order@[p] as int] by {
                    let a = edges[e].0;
                    assert(edge_between(edges, a as int, order@[p] as int));
                    if p < pos {
                        if a == idx {
                            lemma_topo_edge(order@, n as nat, edges, pos as int, p);
                        }
                        assert(order@[p] != idx);
                    } else {
                        lemma_in_sources_contains(edges, idx, a);
                        assert(in_sources(edges, idx).to_multiset().count(a) > 0);
                        assert(nbrs@.contains(a));
                        let j = choose|j: int| 0 <= j < nbrs@.len() && nbrs@[j] == a;
                        assert(depth@[nbrs@[j] as int] <= max_dep) by {
                            if a == idx {
                                lemma_topo_edge(order@, n as nat, edges, pos as int, pos as int);
                            }
                            assert(before[nbrs@[j] as int] <= max_dep);
                        }
                    }
                }
                assert forall|p: int| #![trigger order@[p]] 0 <= p < pos + 1 implies depth@[order@[p] as int] == 1
                    || exists|e: int| 0 <= e < edges.len() && edges[e].1 == order@[p]
                        && #[trigger] depth@[edges[e].0 as int] + 1 == depth@[order@[p] as int] by {
                    if p < pos {
                        assert(order@[p] != idx);
                        if before[order@[p] as int] != 1 {
                            let e = choose|e: int| 0 <= e < edges.len() && edges[e].1 == order@[p]
                                && #[trigger] before[edges[e].0 as int] + 1 == before[order@[p] as int];
                            let a = edges[e].0;
                            assert(edge_between(edges, a as int, order@[p] as int));
                            if a == idx {
                                lemma_topo_edge(order@, n as nat, edges, pos as int, p);
                            }
                            assert(depth@[edges[e].0 as int] + 1 == depth@[order@[p] as int]);
                        }
                    } else if max_dep != 0 {
                        let j = choose|j: int| 0 <= j < nbrs@.len() && #[trigger] before[nbrs@[j] as int] == max_dep;
                        let a = nbrs@[j];
                        assert(nbrs@.contains(a));
                        assert(nbrs@.to_multiset().count(a) > 0);
                        assert(in_sources(edges, idx).contains(a));
                        lemma_in_sources_contains(edges, idx, a);
                        let e = choose|e: int| 0 <= e < edges.len() && edges[e].0 == a && edges[e].1 == idx;
                        if a == idx {
                            lemma_topo_edge(order@, n as nat, edges, pos as int, pos as int);
                        }
                        assert(depth@[edges[e].0 as int] + 1 == depth@[order@[p] as int]);
                    }
                }
            }
            pos = pos + 1;
        }
        proof {
            assert forall|i: int| 0 <= i < depth@.len() implies 1 <= #[trigger] depth@[i] by {
                assert(order@.contains(i as usize));
                let p = choose|p: int| 0 <= p < order@.len() && order@[p] == i as usize;
                assert(depth@[order@[p] as int] >= 1);
            }
            assert forall|e: int| 0 <= e < edges.len() implies depth@[#[trigger] edges[e].0 as int] < depth@[edges[e].1 as int] by {
                let b = edges[e].1;
                assert(edges_within(edges, n as nat));
                assert(b < n);
                assert(order@.contains(b));
                let p = choose|p: int| 0 <= p < order@.len() && order@[p] == b;
                assert(depth@[edges[e].0 as int] < depth@[order@[p] as int]);
            }
            assert forall|b: int| 0 <= b < n implies #[trigger] layer_from_deps(edges, depth@, b) by {
                assert(order@.contains(b as usize));
                let p = choose|p: int| 0 <= p < order@.len() && order@[p] == b as usize;
                assert(depth@[order@[p] as int] == 1 || exists|e: int| 0 <= e < edges.len() && edges[e].1 == order@[p]
                    && #[trigger] depth@[edges[e].0 as int] + 1 == depth@[order@[p] as int]);
            }
        }
        depth
    }

    /// The nodes of `layer` that need recomputation, in the order of `layer`.
    fn dirty_in(&self, layer: &Vec<usize>) -> (dirty: Vec<usize>)
        requires
            self.wf(),
            forall|k: int| 0 <= k < layer@.len() ==> #[trigger] layer@[k] < self@.nodes.len(),
            forall|k1: int, k2: int| 0 <= k1 < k2 < layer@.len() ==> #[trigger] layer@[k1] < #[trigger] layer@[k2],
        ensures
            forall|k: int|
                #![trigger dirty@[k]]
                0 <= k < dirty@.len() ==> layer@.contains(dirty@[k]) && dirty@[k] < self@.nodes.len()
                    && needs_recompute(self@, dirty@[k] as int),
            forall|k1: int, k2: int| 0 <= k1 < k2 < dirty@.len() ==> #[trigger] dirty@[k1] < #[trigger] dirty@[k2],
            forall|j: int|
                0 <= j < layer@.len() && needs_recompute(self@, layer@[j] as int) ==> dirty@.contains(
                    #[trigger] layer@[j],
                ),
    {
        let mut dirty: Vec<usize> = Vec::new();
        let mut j: usize = 0;
        while j < layer.len()
            invariant
                self.wf(),
                j <= layer@.len(),
                forall|k: int| 0 <= k < layer@.len() ==> #[trigger] layer@[k] < self@.nodes.len(),
                forall|k1: int, k2: int| 0 <= k1 < k2 < layer@.len() ==> #[trigger] layer@[k1] < #[trigger] layer@[k2],
                forall|k: int|
                    #![trigger dirty@[k]]
                    0 <= k < dirty@.len() ==> exists|m: int| 0 <= m < j && #[trigger] layer@[m] == dirty@[k],
                forall|k: int|
                    #![trigger dirty@[k]]
                    0 <= k < dirty@.len() ==> dirty@[k] < self@.nodes.len() && needs_recompute(self@, dirty@[k] as int),
                forall|k1: int, k2: int| 0 <= k1 < k2 < dirty@.len() ==> #[trigger] dirty@[k1] < #[trigger] dirty@[k2],
                j > 0 && dirty@.len() > 0 ==> dirty@[dirty@.len() - 1] <= layer@[j - 1],
                dirty@.len() > 0 ==> j > 0,
                forall|m: int|
                    0 <= m < j && needs_recompute(self@, layer@[m] as int) ==> dirty@.contains(#[trigger] layer@[m]),
            decreases layer@.len() - j,
        {
            let x = layer[j];
            let ghost before = dirty@;
            if self.nodes[x].dirty && self.nodes[x].kind == NodeKind::Compute {
                dirty.push(x);
                proof {
                    assert forall|k1: int, k2: int| 0 <= k1 < k2 < dirty@.len() implies #[trigger] dirty@[k1] < #[trigger] dirty@[k2] by {
                        if k2 == before.len() && before.len() > 0 {
                            assert(before[before.len() - 1] <= layer@[j - 1]);
                            assert(layer@[j - 1] < layer@[j as int]);
                            if k1 < before.len() - 1 {
                                assert(before[k1] < before[before.len() - 1]);
                            }
                        }
                    }
                    assert forall|k: int|
                        #![trigger dirty@[k]]
                        0 <= k < dirty@.len() implies exists|m: int| 0 <= m < j + 1 && #[trigger] layer@[m] == dirty@[k] by {
                        if k < before.len() {
                            assert(dirty@[k] == before[k]);
                            let m = choose|m: int| 0 <= m < j && #[trigger] layer@[m] == before[k];
                            assert(layer@[m] == dirty@[k]);
                        } else {
                            assert(layer@[j as int] == dirty@[k]);
                        }
                    }
                    assert forall|m: int|
                        0 <= m < j + 1 && needs_recompute(self@, layer@[m] as int) implies dirty@.contains(#[trigger] layer@[m]) by {
                        if m < j {
                            assert(before.contains(layer@[m]));
                            let k = choose|k: int| 0 <= k < before.len() && before[k] == layer@[m];
                            assert(dirty@[k] == layer@[m]);
                        } else {
                            assert(dirty@[before.len() as int] == layer@[m]);
                        }
                    }
                }
            } else {
                proof {
                    assert forall|k: int|
                        #![trigger dirty@[k]]
                        0 <= k < dirty@.len() implies exists|m: int| 0 <= m < j + 1 && #[trigger] layer@[m] == dirty@[k] by {
                        let m = choose|m: int| 0 <= m < j && #[trigger] layer@[m] == dirty@[k];
                    }
                    if dirty@.len() > 0 && j > 0 {
                        assert(layer@[j - 1] < layer@[j as int]);
                    }
                }
            }
            j = j + 1;
        }
        proof {
            assert forall|k: int| #![trigger dirty@[k]] 0 <= k < dirty@.len() implies layer@.contains(dirty@[k]) by {
                let m = choose|m: int| 0 <= m < layer@.len() && #[trigger] layer@[m] == dirty@[k];
            }
        }
        dirty
    }

    /// Evaluates the compute nodes of `batch` in parallel with rayon
    /// (`par_iter().map(..).collect()`): `eval_node` runs once per node, and the
    /// results come back in the order of `batch`.
    #[verifier::external_body]
    fn par_eval(&self, batch: &Vec<usize>) -> (r: Vec<(V, u64, Stopwatch)>)
        where
            V: Send + Sync,
            F: Sync,
        requires
            self.wf(),
            forall|k: int|
                0 <= k < batch@.len() ==> #[trigger] batch@[k] < self@.nodes.len()
                    && self@.nodes[batch@[k] as int].kind == NodeKind::Compute,
        ensures
            r@.len() == batch@.len(),
            forall|k: int|
                0 <= k < batch@.len() ==> computed_from(
                    self@.nodes[batch@[k] as int].compute_fn.unwrap(),
                    self@.nodes,
                    self@.nodes[batch@[k] as int].deps,
                    (#[trigger] r@[k]).0,
                ) && timed_alone(r@[k].2@, batch@[k], r@[k].1),
    {
        batch.par_iter().map(|&i| self.eval_node(i)).collect()
    }

    /// Parallel topological recompute using Rayon.
    ///
    /// Nodes in the same topological "layer" (no dependency among them) run in parallel.
    /// The log lists the recomputed nodes layer by layer, shallower layers first.
    #[verifier::rlimit(30)]
    pub fn topo_recompute_parallel(&mut self) -> (r: Result<(), EngineError>)
        where
            V: Send + Sync,
            F: Sync,
        requires
            old(self).wf(),
        ensures
            final(self).wf(),
            r is Ok,
            recompute_post(old(self)@, final(self)@),
            exists|dep: Seq<usize>, ord: Seq<usize>|
                #![trigger is_depth_map(old(self)@.edges, old(self)@.nodes.len(), dep), log_of_recompute(old(self)@, final(self)@, ord)]
                is_depth_map(old(self)@.edges, old(self)@.nodes.len(), dep) && log_of_recompute(old(self)@, final(self)@, ord)
                    && in_layer_order(dep, ord),
    {
        let order = match graph_toposort(&self.graph) {
            Ok(order) => order,
            Err(_) => return Err(EngineError::CycleDetected),
        };
        // Assign depth (layer) to each node: depth[n] = 1 + max(depth[dep])
        let depth = self.node_depths(&order);
        // Group nodes by layer
        let layers = group_layers(&depth);
        let ghost s0 = self@;
        let ghost n = s0.nodes.len();
        let ghost edges = s0.edges;
        let ghost dep = depth@;
        let ghost mut ord: Seq<usize> = Seq::empty();
        // Process each layer; nodes within a layer are independent
        let mut li: usize = 0;
        while li < layers.len()
            invariant
                self.wf(),
                s0 == old(self)@,
                n == s0.nodes.len(),
                edges == s0.edges,
                self@.nodes.len() == n,
                self@.edges == edges,
                self@.index == s0.index,
                dep == depth@,
                dep.len() == n,
                forall|i: int| 0 <= i < dep.len() ==> 1 <= #[trigger] dep[i] <= layers@.len(),
                forall|d: int, k: int|
                    #![trigger layers@[d]@[k]]
                    0 <= d < layers@.len() && 0 <= k < layers@[d]@.len() ==> layers@[d]@[k] < n
                        && dep[layers@[d]@[k] as int] == d + 1,
                forall|d: int, k1: int, k2: int|
                    0 <= d < layers@.len() && 0 <= k1 < k2 < layers@[d]@.len() ==> #[trigger] layers@[d]@[k1]
                        < #[trigger] layers@[d]@[k2],
                forall|i: int| 0 <= i < n ==> #[trigger] layers@[dep[i] - 1]@.contains(i as usize),
                forall|e: int| 0 <= e < edges.len() ==> dep[#[trigger] edges[e].0 as int] < dep[edges[e].1 as int],
                li <= layers@.len(),
                forall|i: int|
                    #![trigger self@.nodes[i]]
                    0 <= i < n ==> {
                        &&& self@.nodes[i].name == s0.nodes[i].name
                        &&& self@.nodes[i].kind == s0.nodes[i].kind
                        &&& self@.nodes[i].compute_fn == s0.nodes[i].compute_fn
                        &&& self@.nodes[i].deps == s0.nodes[i].deps
                    },
                forall|i: int| 0 <= i < n && dep[i] <= li ==> #[trigger] node_recomputed(s0, self@, i),
                forall|i: int|
                    #![trigger self@.nodes[i]]
                    0 <= i < n && dep[i] > li ==> {
                        &&& self@.nodes[i].dirty == s0.nodes[i].dirty
                        &&& self@.nodes[i].value == s0.nodes[i].value
                    },
                forall|k: int|
                    #![trigger ord[k]]
                    0 <= k < ord.len() ==> {
                        &&& ord[k] < n
                        &&& needs_recompute(s0, ord[k] as int)
                        &&& dep[ord[k] as int] <= li
                    },
                forall|k1: int, k2: int|
                    0 <= k1 < k2 < ord.len() ==> dep[#[trigger] ord[k1] as int] <= dep[#[trigger] ord[k2] as int]
                        && ord[k1] != ord[k2],
                forall|i: int| 0 <= i < n && needs_recompute(s0, i) && dep[i] <= li ==> #[trigger] ord.contains(i as usize),
                self@.log.len() == s0.log.len() + ord.len(),
                self@.log.subrange(0, s0.log.len() as int) == s0.log,
                forall|k: int|
                    0 <= k < ord.len() ==> (#[trigger] self@.log[s0.log.len() + k]).node@
                        == s0.nodes[ord[k] as int].name && self@.log[s0.log.len() + k].recomputed,
                self@.timings.len() == s0.timings.len() + ord.len(),
                self@.timings.subrange(0, s0.timings.len() as int) == s0.timings,
                forall|k: int|
                    0 <= k < ord.len() ==> timed_alone(
                        #[trigger] self@.timings[s0.timings.len() + k],
                        ord[k],
                        self@.log[s0.log.len() + k].duration_us,
                    ),
            decreases layers@.len() - li,
        {
            let layer = &layers[li];
            let dirty = self.dirty_in(layer);
            let ghost cur0 = self@;
            let ghost ord0 = ord;
            let ghost mut res0: Seq<(V, u64, Stopwatch)> = Seq::empty();
            proof {
                assert forall|k: int| #![trigger dirty@[k]] 0 <= k < dirty@.len() implies dep[dirty@[k] as int] == li + 1 by {
                    let m = choose|m: int| 0 <= m < layer@.len() && layer@[m] == dirty@[k];
                    assert(layers@[li as int]@[m] == dirty@[k]);
                }
            }
            if dirty.len() > 0 {
                // Compute all nodes in this layer in parallel
                let mut results = self.par_eval(&dirty);
                proof {
                    res0 = results@;
                }
                let mut k: usize = 0;
                while k < dirty.len()
                    invariant
                        self.wf(),
                        s0 == old(self)@,
                        n == s0.nodes.len(),
                        self@.nodes.len() == n,
                        self@.edges == edges,
                        edges == s0.edges,
                        self@.index == s0.index,
                        cur0.nodes.len() == n,
                        forall|i: int|
                            #![trigger self@.nodes[i]]
                            0 <= i < n ==> {
                                &&& self@.nodes[i].name == s0.nodes[i].name
                                &&& self@.nodes[i].kind == s0.nodes[i].kind
                                &&& self@.nodes[i].compute_fn == s0.nodes[i].compute_fn
                                &&& self@.nodes[i].deps == s0.nodes[i].deps
                            },
                        forall|j: int|
                            #![trigger dirty@[j]]
                            0 <= j < dirty@.len() ==> dirty@[j] < n && needs_recompute(cur0, dirty@[j] as int),
                        forall|j1: int, j2: int| 0 <= j1 < j2 < dirty@.len() ==> #[trigger] dirty@[j1] < #[trigger] dirty@[j2],
                        res0.len() == dirty@.len(),
                        forall|j: int|
                            0 <= j < dirty@.len() ==> computed_from(
                                cur0.nodes[dirty@[j] as int].compute_fn.unwrap(),
                                cur0.nodes,
                                cur0.nodes[dirty@[j] as int].deps,
                                (#[trigger] res0[j]).0,
                            ),
                        k <= dirty@.len(),
                        results@ == res0.subrange(k as int, res0.len() as int),
                        forall|x: int|
                            0 <= x < n && !dirty@.subrange(0, k as int).contains(x as usize) ==> #[trigger] self@.nodes[x]
                                == cur0.nodes[x],
                        forall|j: int|
                            #![trigger dirty@[j]]
                            0 <= j < k ==> self@.nodes[dirty@[j] as int] == (NodeView {
                                value: Some(res0[j].0),
                                dirty: false,
                                ..cur0.nodes[dirty@[j] as int]
                            }),
                        ord == ord0 + dirty@.subrange(0, k as int),
                        self@.log.len() == cur0.log.len() + k,
                        self@.log.subrange(0, cur0.log.len() as int) == cur0.log,
                        forall|j: int|
                            0 <= j < k ==> (#[trigger] self@.log[cur0.log.len() + j]).node@
                                == cur0.nodes[dirty@[j] as int].name && self@.log[cur0.log.len() + j].recomputed,
                        forall|j: int| 0 <= j < dirty@.len() ==> timed_alone((#[trigger] res0[j]).2@, dirty@[j], res0[j].1),
                        self@.timings.len() == cur0.timings.len() + k,
                        self@.timings.subrange(0, cur0.timings.len() as int) == cur0.timings,
                        forall|j: int|
                            0 <= j < k ==> (#[trigger] self@.timings[cur0.timings.len() + j]) == res0[j].2@
                                && self@.log[cur0.log.len() + j].duration_us == res0[j].1,
                    decreases dirty@.len() - k,
                {
                    let (value, elapsed, watch) = results.remove(0);
                    let idx = dirty[k];
                    let name = self.nodes[idx].name.clone();
                    let ghost before_nodes = self.nodes@;
                    let ghost before = self@;
                    let ghost before_watches = self.timings@;
                    let ghost watch_record = watch@;
                    self.nodes[idx].value = Some(value);
                    self.nodes[idx].dirty = false;
                    self.log.push(LogEntry { node: name, recomputed: true, duration_us: elapsed });
                    self.timings.push(watch);
                    proof {
                        let now = self@;
                        assert(now.timings =~= before.timings.push(watch_record)) by {
                            assert(self.timings@ == before_watches.push(watch));
                        }
                        assert(watch_record == res0[k as int].2@ && elapsed == res0[k as int].1);
                        assert(now.log == before.log.push(LogEntry { node: name, recomputed: true, duration_us: elapsed }));
                        assert(now.timings.subrange(0, cur0.timings.len() as int) =~= cur0.timings) by {
                            assert forall|q: int| 0 <= q < cur0.timings.len() implies now.timings[q] == before.timings[q] by {}
                        }
                        assert forall|j: int|
                            0 <= j < k + 1 implies (#[trigger] now.timings[cur0.timings.len() + j]) == res0[j].2@
                                && now.log[cur0.log.len() + j].duration_us == res0[j].1 by {
                            if j < k {
                                assert(now.log[cur0.log.len() + j] == before.log[cur0.log.len() + j]);
                                assert(now.timings[cur0.timings.len() + j] == before.timings[cur0.timings.len() + j]);
                            }
                        }
                        assert(value == res0[k as int].0);
                        assert forall|j: int| #![trigger self.nodes@[j]] 0 <= j < n && j != idx implies self.nodes@[j] == before_nodes[j] by {}
                        assert(self.wf()) by {
                            assert forall|j: int| #![trigger self.nodes@[j]] 0 <= j < n implies {
                                &&& self.nodes@[j].deps@ == before_nodes[j].deps@
                                &&& self.nodes@[j].name@ == before_nodes[j].name@
                                &&& self.nodes@[j].kind == before_nodes[j].kind
                                &&& self.nodes@[j].compute_fn == before_nodes[j].compute_fn
                            } by {}
                        }
                        assert forall|i: int| #![trigger now.nodes[i]] 0 <= i < n && i != idx implies now.nodes[i] == before.nodes[i] by {
                            assert(self.nodes@[i] == before_nodes[i]);
                        }
                        assert(!dirty@.subrange(0, k as int).contains(idx)) by {
                            if dirty@.subrange(0, k as int).contains(idx) {
                                let j = choose|j: int| 0 <= j < k && dirty@.subrange(0, k as int)[j] == idx;
                                assert(dirty@[j] < dirty@[k as int]);
                            }
                        }
                        assert(before.nodes[idx as int] == cur0.nodes[idx as int]);
                        assert(now.nodes[idx as int] == (NodeView {
                            value: Some(res0[k as int].0),
                            dirty: false,
                            ..cur0.nodes[idx as int]
                        }));
                        assert forall|x: int|
                            0 <= x < n && !dirty@.subrange(0, k + 1).contains(x as usize) implies #[trigger] now.nodes[x]
                                == cur0.nodes[x] by {
                            assert(dirty@.subrange(0, k + 1)[k as int] == idx);
                            if x == idx {
                                assert(dirty@.subrange(0, k + 1).contains(idx));
                            }
                            if dirty@.subrange(0, k as int).contains(x as usize) {
                                let j = choose|j: int| 0 <= j < k && dirty@.subrange(0, k as int)[j] == x as usize;
                                assert(dirty@.subrange(0, k + 1)[j] == x as usize);
                            }
                            assert(before.nodes[x] == cur0.nodes[x]);
                        }
                        assert forall|j: int|
                            #![trigger dirty@[j]]
                            0 <= j < k + 1 implies now.nodes[dirty@[j] as int] == (NodeView {
                                value: Some(res0[j].0),
                                dirty: false,
                                ..cur0.nodes[dirty@[j] as int]
                            }) by {
                            if j < k {
                                assert(dirty@[j] < dirty@[k as int]);
                            }
                        }
                        ord = ord0 + dirty@.subrange(0, k + 1);
                        assert(now.log == before.log.push(LogEntry { node: name, recomputed: true, duration_us: elapsed }));
                        assert(now.log.subrange(0, cur0.log.len() as int) =~= cur0.log) by {
                            assert forall|q: int| 0 <= q < cur0.log.len() implies now.log[q] == before.log[q] by {}
                        }
                        assert forall|j: int|
                            0 <= j < k + 1 implies (#[trigger] now.log[cur0.log.len() + j]).node@
                                == cur0.nodes[dirty@[j] as int].name && now.log[cur0.log.len() + j].recomputed by {
                            if j < k {
                                assert(now.log[cur0.log.len() + j] == before.log[cur0.log.len() + j]);
                            }
                        }
                        assert(results@ =~= res0.subrange(k + 1, res0.len() as int));
                        assert(forall|j: int|
                            0 <= j < k + 1 ==> (#[trigger] self@.timings[cur0.timings.len() + j]) == res0[j].2@
                                && self@.log[cur0.log.len() + j].duration_us == res0[j].1);
                    }
                    k = k + 1;
                }
                proof {
                    assert(dirty@.subrange(0, dirty@.len() as int) =~= dirty@);
                }
            }
            proof {
                let fin = self@;
                // What the layer did, in both branches.
                assert(res0.len() == dirty@.len());
                assert(ord == ord0 + dirty@);
                assert(fin.log.len() == cur0.log.len() + dirty@.len());
                assert(fin.timings.len() == cur0.timings.len() + dirty@.len());
                assert(fin.timings.subrange(0, cur0.timings.len() as int) == cur0.timings);
                assert(forall|j: int|
                    0 <= j < dirty@.len() ==> (#[trigger] fin.timings[cur0.timings.len() + j]) == res0[j].2@
                        && fin.log[cur0.log.len() + j].duration_us == res0[j].1);
                assert(forall|j: int| 0 <= j < dirty@.len() ==> timed_alone((#[trigger] res0[j]).2@, dirty@[j], res0[j].1));
                assert forall|x: int| 0 <= x < n && !dirty@.contains(x as usize) implies #[trigger] fin.nodes[x] == cur0.nodes[x] by {}
                assert forall|i: int| 0 <= i < n && dep[i] <= li + 1 implies #[trigger] node_recomputed(s0, fin, i) by {
                    if dep[i] <= li {
                        assert(node_recomputed(s0, cur0, i));
                        assert(!dirty@.contains(i as usize)) by {
                            if dirty@.contains(i as usize) {
                                let j = choose|j: int| 0 <= j < dirty@.len() && dirty@[j] == i as usize;
                                assert(dep[dirty@[j] as int] == li + 1);
                            }
                        }
                        assert(fin.nodes[i] == cur0.nodes[i]);
                        if needs_recompute(s0, i) {
                            assert forall|q: int| 0 <= q < s0.nodes[i].deps.len() implies fin.nodes[#[trigger] s0.nodes[i].deps[q] as int].value
                                == cur0.nodes[s0.nodes[i].deps[q] as int].value by {
                                { self.law_structure(); lemma_dep_edge(self@, i, q); }
                                let d = s0.nodes[i].deps[q];
                                let e = choose|e: int| 0 <= e < edges.len() && edges[e].0 == d && edges[e].1 == i;
                                assert(dep[edges[e].0 as int] < dep[edges[e].1 as int]);
                                if dirty@.contains(d) {
                                    let j = choose|j: int| 0 <= j < dirty@.len() && dirty@[j] == d;
                                    assert(dep[dirty@[j] as int] == li + 1);
                                }
                            }
                            lemma_computed_from_frame(
                                s0.nodes[i].compute_fn.unwrap(),
                                cur0.nodes,
                                fin.nodes,
                                s0.nodes[i].deps,
                                cur0.nodes[i].value.unwrap(),
                            );
                        }
                    } else {
                        assert(cur0.nodes[i].dirty == s0.nodes[i].dirty);
                        assert(cur0.nodes[i].value == s0.nodes[i].value);
                        if needs_recompute(s0, i) {
                            assert(layers@[dep[i] - 1]@.contains(i as usize));
                            let m = choose|m: int| 0 <= m < layer@.len() && layer@[m] == i as usize;
                            assert(needs_recompute(cur0, layer@[m] as int));
                            assert(dirty@.contains(layer@[m]));
                            let j = choose|j: int| 0 <= j < dirty@.len() && dirty@[j] == i as usize;
                            assert(fin.nodes[dirty@[j] as int] == (NodeView {
                                value: Some(res0[j].0),
                                dirty: false,
                                ..cur0.nodes[dirty@[j] as int]
                            }));
                            assert(computed_from(
                                cur0.nodes[dirty@[j] as int].compute_fn.unwrap(),
                                cur0.nodes,
                                cur0.nodes[dirty@[j] as int].deps,
                                res0[j].0,
                            ));
                            assert forall|q: int| 0 <= q < s0.nodes[i].deps.len() implies fin.nodes[#[trigger] s0.nodes[i].deps[q] as int].value
                                == cur0.nodes[s0.nodes[i].deps[q] as int].value by {
                                { self.law_structure(); lemma_dep_edge(self@, i, q); }
                                let d = s0.nodes[i].deps[q];
                                let e = choose|e: int| 0 <= e < edges.len() && edges[e].0 == d && edges[e].1 == i;
                                assert(dep[edges[e].0 as int] < dep[edges[e].1 as int]);
                                if dirty@.contains(d) {
                                    let j2 = choose|j2: int| 0 <= j2 < dirty@.len() && dirty@[j2] == d;
                                    assert(dep[dirty@[j2] as int] == li + 1);
                                }
                            }
                            lemma_computed_from_frame(s0.nodes[i].compute_fn.unwrap(), cur0.nodes, fin.nodes, s0.nodes[i].deps, res0[j].0);
                        } else {
                            assert(!dirty@.contains(i as usize)) by {
                                if dirty@.contains(i as usize) {
                                    let j = choose|j: int| 0 <= j < dirty@.len() && dirty@[j] == i as usize;
                                    assert(needs_recompute(cur0, dirty@[j] as int));
                                }
                            }
                            assert(fin.nodes[i] == cur0.nodes[i]);
                        }
                    }
                }
                assert forall|i: int|
                    #![trigger fin.nodes[i]]
                    0 <= i < n && dep[i] > li + 1 implies {
                        &&& fin.nodes[i].dirty == s0.nodes[i].dirty
                        &&& fin.nodes[i].value == s0.nodes[i].value
                    } by {
                    if dirty@.contains(i as usize) {
                        let j = choose|j: int| 0 <= j < dirty@.len() && dirty@[j] == i as usize;
                        assert(dep[dirty@[j] as int] == li + 1);
                    }
                    assert(fin.nodes[i] == cur0.nodes[i]);
                }
                assert forall|k: int|
                    #![trigger ord[k]]
                    0 <= k < ord.len() implies {
                        &&& ord[k] < n
                        &&& needs_recompute(s0, ord[k] as int)
                        &&& dep[ord[k] as int] <= li + 1
                    } by {
                    if k < ord0.len() {
                        assert(ord[k] == ord0[k]);
                    } else {
                        assert(ord[k] == dirty@[k - ord0.len()]);
                        assert(needs_recompute(cur0, dirty@[k - ord0.len()] as int));
                    }
                }
                assert forall|k1: int, k2: int|
                    0 <= k1 < k2 < ord.len() implies dep[#[trigger] ord[k1] as int] <= dep[#[trigger] ord[k2] as int]
                        && ord[k1] != ord[k2] by {
                    if k2 < ord0.len() {
                        assert(ord[k1] == ord0[k1] && ord[k2] == ord0[k2]);
                    } else if k1 < ord0.len() {
                        assert(ord[k1] == ord0[k1]);
                        assert(ord[k2] == dirty@[k2 - ord0.len()]);
                        assert(dep[ord0[k1] as int] <= li);
                    } else {
                        assert(ord[k1] == dirty@[k1 - ord0.len()]);
                        assert(ord[k2] == dirty@[k2 - ord0.len()]);
                        assert(dirty@[k1 - ord0.len()] < dirty@[k2 - ord0.len()]);
                    }
                }
                assert forall|i: int| 0 <= i < n && needs_recompute(s0, i) && dep[i] <= li + 1 implies #[trigger] ord.contains(i as usize) by {
                    if dep[i] <= li {
                        assert(ord0.contains(i as usize));
                        let k = choose|k: int| 0 <= k < ord0.len() && ord0[k] == i as usize;
                        assert(ord[k] == i as usize);
                    } else {
                        assert(layers@[dep[i] - 1]@.contains(i as usize));
                        let m = choose|m: int| 0 <= m < layer@.len() && layer@[m] == i as usize;
                        assert(cur0.nodes[i].dirty == s0.nodes[i].dirty);
                        assert(needs_recompute(cur0, layer@[m] as int));
                        assert(dirty@.contains(layer@[m]));
                        let j = choose|j: int| 0 <= j < dirty@.len() && dirty@[j] == i as usize;
                        assert(ord[ord0.len() + j] == i as usize);
                    }
                }
                assert(fin.log.subrange(0, s0.log.len() as int) =~= s0.log) by {
                    assert forall|q: int| 0 <= q < s0.log.len() implies fin.log[q] == s0.log[q] by {
                        assert(fin.log.subrange(0, cur0.log.len() as int)[q] == cur0.log[q]);
                        assert(cur0.log.subrange(0, s0.log.len() as int)[q] == s0.log[q]);
                    }
                }
                assert forall|k: int|
                    0 <= k < ord.len() implies (#[trigger] fin.log[s0.log.len() + k]).node@
                        == s0.nodes[ord[k] as int].name && fin.log[s0.log.len() + k].recomputed by {
                    if k < ord0.len() {
                        assert(ord[k] == ord0[k]);
                        assert(fin.log.subrange(0, cur0.log.len() as int)[s0.log.len() + k] == cur0.log[s0.log.len() + k]);
                        assert(cur0.log[s0.log.len() + k].node@ == s0.nodes[ord0[k] as int].name);
                    } else {
                        let j = k - ord0.len();
                        assert(ord[k] == dirty@[j]);
                        assert(fin.log[cur0.log.len() + j].node@ == cur0.nodes[dirty@[j] as int].name);
                        assert(s0.log.len() + k == cur0.log.len() + j);
                    }
                }
                assert(fin.timings.subrange(0, s0.timings.len() as int) =~= s0.timings) by {
                    assert forall|q: int| 0 <= q < s0.timings.len() implies fin.timings[q] == s0.timings[q] by {
                        assert(fin.timings.subrange(0, cur0.timings.len() as int)[q] == cur0.timings[q]);
                        assert(cur0.timings.subrange(0, s0.timings.len() as int)[q] == s0.timings[q]);
                    }
                }
                assert forall|k: int|
                    0 <= k < ord.len() implies timed_alone(
                        #[trigger] fin.timings[s0.timings.len() + k],
                        ord[k],
                        fin.log[s0.log.len() + k].duration_us,
                    ) by {
                    if k < ord0.len() {
                        assert(ord[k] == ord0[k]);
                        assert(fin.timings.subrange(0, cur0.timings.len() as int)[s0.timings.len() + k] == cur0.timings[s0.timings.len() + k]);
                        assert(fin.log.subrange(0, cur0.log.len() as int)[s0.log.len() + k] == cur0.log[s0.log.len() + k]);
                        assert(timed_alone(cur0.timings[s0.timings.len() + k], ord0[k], cur0.log[s0.log.len() + k].duration_us));
                    } else {
                        let j = k - ord0.len();
                        assert(ord[k] == dirty@[j]);
                        assert(s0.log.len() + k == cur0.log.len() + j);
                        assert(s0.timings.len() + k == cur0.timings.len() + j);
                        assert(fin.timings[cur0.timings.len() + j] == res0[j].2@);
                    }
                }
            }
            li = li + 1;
        }
        proof {
            let fin = self@;
            assert forall|i: int| 0 <= i < n implies #[trigger] node_recomputed(s0, fin, i) by {
                assert(dep[i] <= layers@.len());
            }
            assert forall|i: int| 0 <= i < n && needs_recompute(s0, i) implies #[trigger] ord.contains(i as usize) by {
                assert(dep[i] <= layers@.len());
            }
            assert forall|k: int| 0 <= k < ord.len() implies #[trigger] ord[k] < s0.nodes.len() && needs_recompute(s0, ord[k] as int) by {}
            assert forall|k1: int, k2: int| 0 <= k1 < k2 < ord.len() implies ord[k1] != ord[k2] by {}
            assert forall|k1: int, k2: int|
                0 <= k1 < ord.len() && 0 <= k2 < ord.len() && k1 != k2 && #[trigger] reaches(
                    edges,
                    ord[k1],
                    ord[k2],
                ) implies k1 < k2 by {
                let p = choose|p: Seq<usize>| #[trigger] is_path(edges, p) && p[0] == ord[k1] && p.last() == ord[k2];
                if p.len() == 1 {
                    if k1 < k2 {
                        assert(ord[k1] != ord[k2]);
                    } else {
                        assert(ord[k2] != ord[k1]);
                    }
                } else {
                    lemma_depth_path(edges, n, dep, p);
                    if k2 < k1 {
                        assert(dep[ord[k2] as int] <= dep[ord[k1] as int]);
                    }
                }
            }
            assert(log_of_recompute(s0, fin, ord));
            assert(is_depth_map(edges, n, dep));
            assert(in_layer_order(dep, ord));
        }
        Ok(())
    }

    /// The number of nodes.
    pub fn node_count(&self) -> (r: usize)
        requires
            self.wf(),
        ensures
            r == self@.nodes.len(),
    {
        self.nodes.len()
    }

    /// The number of dependency edges.
    pub fn edge_count(&self) -> (r: usize)
        requires
            self.wf(),
        ensures
            r == self@.edges.len(),
    {
        graph_edge_count(&self.graph)
    }

    /// The recomputation log.
    pub fn log(&self) -> (r: &Log)
        ensures
            r@ == self@.log,
    {
        &self.log
    }

    /// Empties the recomputation log.
    pub fn clear_log(&mut self)
        requires
            old(self).wf(),
        ensures
            final(self).wf(),
            final(self)@ == (EngineView {
                log: Seq::<LogEntry>::empty(),
                timings: Seq::<Seq<TimeEvent>>::empty(),
                ..old(self)@
            }),
    {
        self.log.clear();
        self.timings = Vec::new();
        assert(self@.timings =~= Seq::<Seq<TimeEvent>>::empty());
    }
}

impl<V, F: Fn(&[Option<&V>]) -> V> Default for DeltaForge<V, F> {
    fn default() -> (r: Self)
        ensures
            r.wf(),
            r@.nodes == Seq::<NodeView<V, F>>::empty(),
            r@.edges == Seq::<(usize, usize)>::empty(),
            r@.index == Map::<Seq<char>, usize>::empty(),
            r@.log == Seq::<LogEntry>::empty(),
    {
        Self::new()
    }
}

} // verus!
