//! Laws of the engine that relate several operations, stated over the views
//! that the operations' contracts use.
use crate::engine::{
    added_dep_view, added_node_view, args_match, computed_from, deps_are_edges, lemma_computed_from_frame, lemma_dep_edge, log_of_recompute, needs_recompute, node_of, node_recomputed,
    recompute_post, same_value, set_input_view, EngineView,
};
use crate::log::LogEntry;
use crate::node::NodeView;
use crate::timing::timed_alone;
use crate::graph::{
    edge_between, edges_within, has_cycle, in_sources, is_path, lemma_edge_reaches, lemma_in_sources_contains,
    lemma_reaches_trans, path_step, reaches,
};
use crate::node::NodeKind;
use vstd::prelude::*;
use vstd::seq_lib::group_to_multiset_ensures;
use vstd::set_lib::{lemma_int_range, lemma_len_subset, set_int_range};

verus! {

/// Setting an input and then reading it gives back the value that was set: after
/// `set_input(name, value)` succeeds, the node that `name` stands for holds
/// `value` (and `get(name)` returns a clone of it).
pub proof fn law_get_after_set_input<V, F>(s: EngineView<V, F>, name: Seq<char>, value: V)
    requires
        s.index.contains_key(name),
        s.index[name] < s.nodes.len(),
        node_of(s, name).kind == NodeKind::Input,
    ensures
        set_input_view(s, s.index[name] as int, value).index == s.index,
        node_of(set_input_view(s, s.index[name] as int, value), name).value == Some(value),
        !node_of(set_input_view(s, s.index[name] as int, value), name).dirty,
{
}

/// After a recomputation no compute node is dirty.
pub proof fn law_recompute_cleans<V, F: Fn(&[Option<&V>]) -> V>(old: EngineView<V, F>, new: EngineView<V, F>)
    requires
        recompute_post(old, new),
    ensures
        forall|i: int|
            0 <= i < new.nodes.len() && new.nodes[i].kind == NodeKind::Compute ==> !#[trigger] new.nodes[i].dirty,
{
    assert forall|i: int| 0 <= i < new.nodes.len() && new.nodes[i].kind == NodeKind::Compute implies !#[trigger] new.nodes[i].dirty by {
        assert(node_recomputed(old, new, i));
    }
}

/// Recomputing twice does no more than recomputing once: the second
/// recomputation changes no node and logs nothing.
pub proof fn law_recompute_idempotent<V, F: Fn(&[Option<&V>]) -> V>(
    s0: EngineView<V, F>,
    s1: EngineView<V, F>,
    s2: EngineView<V, F>,
)
    requires
        recompute_post(s0, s1),
        recompute_post(s1, s2),
    ensures
        s2.nodes == s1.nodes,
        s2.log == s1.log,
{
    law_recompute_cleans(s0, s1);
    assert forall|i: int| 0 <= i < s1.nodes.len() implies !needs_recompute(s1, i) by {
        assert(node_recomputed(s0, s1, i));
    }
    assert forall|i: int| 0 <= i < s1.nodes.len() implies #[trigger] s2.nodes[i] == s1.nodes[i] by {
        assert(node_recomputed(s1, s2, i));
    }
    assert(s2.nodes =~= s1.nodes);
    let ord = choose|ord: Seq<usize>| #[trigger] log_of_recompute(s1, s2, ord);
    if ord.len() > 0 {
        assert(needs_recompute(s1, ord[0] as int));
    }
    assert(s2.log =~= s2.log.subrange(0, s1.log.len() as int));
}

/// Incrementality: setting input `i` and then recomputing recomputes exactly the
/// compute nodes that were already dirty or are downstream of `i`, each once.
pub proof fn law_set_input_recomputes_downstream<V, F: Fn(&[Option<&V>]) -> V>(
    s0: EngineView<V, F>,
    i: int,
    value: V,
    s2: EngineView<V, F>,
    ord: Seq<usize>,
)
    requires
        0 <= i < s0.nodes.len(),
        s0.nodes[i].kind == NodeKind::Input,
        s0.nodes.len() <= u32::MAX,
        recompute_post(set_input_view(s0, i, value), s2),
        log_of_recompute(set_input_view(s0, i, value), s2, ord),
    ensures
        forall|j: int|
            0 <= j < s0.nodes.len() ==> (ord.contains(j as usize) <==> (s0.nodes[j].kind == NodeKind::Compute
                && (s0.nodes[j].dirty || reaches(s0.edges, i as usize, j as usize)))),
        s2.log.len() == s0.log.len() + ord.len(),
{
    let s1 = set_input_view(s0, i, value);
    assert forall|j: int| 0 <= j < s0.nodes.len() implies (ord.contains(j as usize) <==> (s0.nodes[j].kind
        == NodeKind::Compute && (s0.nodes[j].dirty || reaches(s0.edges, i as usize, j as usize)))) by {
        if ord.contains(j as usize) {
            let k = choose|k: int| 0 <= k < ord.len() && ord[k] == j as usize;
            assert(needs_recompute(s1, ord[k] as int));
            assert(s1.nodes[j].dirty);
            assert(s1.nodes[j].kind == s0.nodes[j].kind);
        }
        if s0.nodes[j].kind == NodeKind::Compute && (s0.nodes[j].dirty || reaches(s0.edges, i as usize, j as usize)) {
            assert(j != i);
            assert(s1.nodes[j].dirty);
            assert(needs_recompute(s1, j));
        }
    }
}

/// The compute function `f` gives equal results for equal arguments.
pub open spec fn deterministic<V, F: Fn(&[Option<&V>]) -> V>(f: F) -> bool {
    forall|a1: &[Option<&V>], a2: &[Option<&V>], r1: V, r2: V|
        a1@ == a2@ && #[trigger] f.ensures((a1,), r1) && #[trigger] f.ensures((a2,), r2) ==> r1 == r2
}

/// The `k`-th node recomputed into `s1` gets the same value in `s2`.
proof fn lemma_recomputed_agree<V, F: Fn(&[Option<&V>]) -> V>(
    s0: EngineView<V, F>,
    s1: EngineView<V, F>,
    s2: EngineView<V, F>,
    ord1: Seq<usize>,
    k: int,
)
    requires
        recompute_post(s0, s1),
        recompute_post(s0, s2),
        log_of_recompute(s0, s1, ord1),
        edges_within(s0.edges, s0.nodes.len()),
        !has_cycle(s0.edges),
        forall|i: int| 0 <= i < s0.nodes.len() ==> #[trigger] s0.nodes[i].deps == in_sources(s0.edges, i as usize),
        forall|i: int|
            0 <= i < s0.nodes.len() && #[trigger] s0.nodes[i].kind == NodeKind::Compute ==> deterministic(
                s0.nodes[i].compute_fn.unwrap(),
            ),
        s0.nodes.len() <= u32::MAX,
        0 <= k < ord1.len(),
    ensures
        s1.nodes[ord1[k] as int].value == s2.nodes[ord1[k] as int].value,
    decreases k,
{
    let i = ord1[k] as int;
    assert(needs_recompute(s0, i));
    assert(node_recomputed(s0, s1, i));
    assert(node_recomputed(s0, s2, i));
    let f = s0.nodes[i].compute_fn.unwrap();
    let deps = s0.nodes[i].deps;
    let v1 = s1.nodes[i].value.unwrap();
    let v2 = s2.nodes[i].value.unwrap();
    assert forall|q: int| 0 <= q < deps.len() implies s1.nodes[#[trigger] deps[q] as int].value == s2.nodes[deps[q] as int].value by {
        let d = deps[q];
        assert(in_sources(s0.edges, i as usize).contains(d));
        lemma_in_sources_contains(s0.edges, i as usize, d);
        let e = choose|e: int| 0 <= e < s0.edges.len() && s0.edges[e].0 == d && s0.edges[e].1 == i as usize;
        assert(d < s0.nodes.len());
        if needs_recompute(s0, d as int) {
            let di = d as int;
            assert(ord1.contains(di as usize));
            let k2 = choose|k2: int| 0 <= k2 < ord1.len() && ord1[k2] == d;
            lemma_edge_reaches(s0.edges, d, i as usize);
            if d as int == i {
                let p = seq![d, d];
                assert(path_step(s0.edges, p, 0));
                assert(is_path(s0.edges, p));
            }
            assert(reaches(s0.edges, ord1[k2], ord1[k]));
            lemma_recomputed_agree(s0, s1, s2, ord1, k2);
        } else {
            assert(node_recomputed(s0, s1, d as int));
            assert(node_recomputed(s0, s2, d as int));
        }
    }
    let a1 = choose|a1: &[Option<&V>]| #[trigger] f.ensures((a1,), v1) && args_match(a1, s1.nodes, deps);
    let a2 = choose|a2: &[Option<&V>]| #[trigger] f.ensures((a2,), v2) && args_match(a2, s2.nodes, deps);
    assert(a1@ =~= a2@) by {
        assert forall|q: int| 0 <= q < deps.len() implies a1@[q] == a2@[q] by {
            assert(same_value(a1@[q], s1.nodes[deps[q] as int].value));
            assert(same_value(a2@[q], s2.nodes[deps[q] as int].value));
            assert(s1.nodes[deps[q] as int].value == s2.nodes[deps[q] as int].value);
        }
    }
    assert(s0.nodes[i].kind == NodeKind::Compute);
    assert(deterministic(f));
}

/// With deterministic compute functions, every recomputation from one state
/// ends in the same nodes, whatever order the work was done in; the parallel
/// recomputation, whose contract is the sequential one's, therefore agrees with it.
pub proof fn law_recompute_deterministic<V, F: Fn(&[Option<&V>]) -> V>(
    s0: EngineView<V, F>,
    s1: EngineView<V, F>,
    s2: EngineView<V, F>,
)
    requires
        recompute_post(s0, s1),
        recompute_post(s0, s2),
        edges_within(s0.edges, s0.nodes.len()),
        !has_cycle(s0.edges),
        forall|i: int| 0 <= i < s0.nodes.len() ==> #[trigger] s0.nodes[i].deps == in_sources(s0.edges, i as usize),
        forall|i: int|
            0 <= i < s0.nodes.len() && #[trigger] s0.nodes[i].kind == NodeKind::Compute ==> deterministic(
                s0.nodes[i].compute_fn.unwrap(),
            ),
        s0.nodes.len() <= u32::MAX,
    ensures
        s1.nodes == s2.nodes,
{
    let ord1 = choose|ord: Seq<usize>| #[trigger] log_of_recompute(s0, s1, ord);
    assert forall|i: int| 0 <= i < s1.nodes.len() implies #[trigger] s1.nodes[i] == s2.nodes[i] by {
        assert(node_recomputed(s0, s1, i));
        assert(node_recomputed(s0, s2, i));
        if needs_recompute(s0, i) {
            assert(ord1.contains(i as usize));
            let k = choose|k: int| 0 <= k < ord1.len() && ord1[k] == i as usize;
            assert(ord1[k] as int == i);
            lemma_recomputed_agree(s0, s1, s2, ord1, k);
        }
    }
    assert(s1.nodes =~= s2.nodes);
}

/// The names of the entries that a recomputation from `s0` to `s1` appended to
/// the log, in log order.
pub open spec fn logged_names<V, F>(s0: EngineView<V, F>, s1: EngineView<V, F>) -> Seq<Seq<char>> {
    s1.log.subrange(s0.log.len() as int, s1.log.len() as int).map_values(|e: LogEntry| e.node@)
}

/// Equal multisets stay equal when every element is mapped by `f`.
proof fn lemma_map_same_multiset<A, B>(a: Seq<A>, b: Seq<A>, f: spec_fn(A) -> B)
    requires
        a.to_multiset() == b.to_multiset(),
    ensures
        a.map_values(f).to_multiset() == b.map_values(f).to_multiset(),
    decreases a.len(),
{
    broadcast use group_to_multiset_ensures;
    broadcast use vstd::multiset::group_multiset_axioms;

    if a.len() == 0 {
        assert(a.to_multiset().len() == 0);
        assert(b.to_multiset().len() == b.len());
        assert(a.map_values(f) =~= b.map_values(f));
    } else {
        let x = a.last();
        let a2 = a.drop_last();
        assert(a2.push(x) =~= a);
        assert(a.to_multiset().count(x) > 0);
        assert(b.contains(x));
        let j = choose|j: int| 0 <= j < b.len() && b[j] == x;
        let b2 = b.remove(j);
        assert(a2.to_multiset() =~= b2.to_multiset());
        lemma_map_same_multiset(a2, b2, f);
        assert(a.map_values(f) =~= a2.map_values(f).push(f(x)));
        assert(b.map_values(f) =~= b2.map_values(f).insert(j, f(x)));
        vstd::seq_lib::to_multiset_insert(b2.map_values(f), j, f(x));
    }
}

/// The nodes that a recomputation logs, as a multiset: exactly the dirty compute
/// nodes, each once.
proof fn lemma_recompute_log_multiset<V, F>(s0: EngineView<V, F>, s1: EngineView<V, F>, ord: Seq<usize>, x: usize)
    requires
        log_of_recompute(s0, s1, ord),
    ensures
        ord.to_multiset().count(x) == if x < s0.nodes.len() && needs_recompute(s0, x as int) { 1nat } else { 0nat },
{
    broadcast use group_to_multiset_ensures;

    assert(ord.no_duplicates()) by {
        assert forall|i: int, j: int| 0 <= i < ord.len() && 0 <= j < ord.len() && i != j implies ord[i] != ord[j] by {
            if i > j {
                assert(ord[j] != ord[i]);
            }
        }
    }
    ord.lemma_multiset_has_no_duplicates();
    if ord.contains(x) {
        let k = choose|k: int| 0 <= k < ord.len() && ord[k] == x;
        assert(ord[k] < s0.nodes.len() && needs_recompute(s0, ord[k] as int));
    }
    if x < s0.nodes.len() && needs_recompute(s0, x as int) {
        assert(ord.contains(x as int as usize));
    }
}

/// Two recomputations from one state (the sequential and the parallel one, say)
/// recompute the same nodes and log the same names, each as often, though
/// perhaps in another order.
pub proof fn law_recompute_logs_same_names<V, F>(
    s0: EngineView<V, F>,
    s1: EngineView<V, F>,
    s2: EngineView<V, F>,
    ord1: Seq<usize>,
    ord2: Seq<usize>,
)
    requires
        log_of_recompute(s0, s1, ord1),
        log_of_recompute(s0, s2, ord2),
    ensures
        ord1.to_multiset() == ord2.to_multiset(),
        s1.log.len() == s2.log.len(),
        logged_names(s0, s1).to_multiset() == logged_names(s0, s2).to_multiset(),
{
    broadcast use group_to_multiset_ensures;

    assert forall|x: usize| ord1.to_multiset().count(x) == ord2.to_multiset().count(x) by {
        lemma_recompute_log_multiset(s0, s1, ord1, x);
        lemma_recompute_log_multiset(s0, s2, ord2, x);
    }
    assert(ord1.to_multiset() =~= ord2.to_multiset());
    assert(ord1.to_multiset().len() == ord1.len());
    assert(ord2.to_multiset().len() == ord2.len());
    let f = |x: usize| s0.nodes[x as int].name;
    assert forall|k: int| 0 <= k < ord1.len() implies #[trigger] logged_names(s0, s1)[k] == f(ord1[k]) by {
        assert(s1.log[s0.log.len() + k].node@ == s0.nodes[ord1[k] as int].name);
    }
    assert forall|k: int| 0 <= k < ord2.len() implies #[trigger] logged_names(s0, s2)[k] == f(ord2[k]) by {
        assert(s2.log[s0.log.len() + k].node@ == s0.nodes[ord2[k] as int].name);
    }
    assert(logged_names(s0, s1) =~= ord1.map_values(f));
    assert(logged_names(s0, s2) =~= ord2.map_values(f));
    lemma_map_same_multiset(ord1, ord2, f);
}

/// An input node keeps its value through every operation but a `set_input` on
/// that node: recomputing, registering a node, adding a dependency and setting
/// another input leave it as it was.
pub proof fn law_input_value_persists<V, F: Fn(&[Option<&V>]) -> V>(s: EngineView<V, F>, j: int)
    requires
        0 <= j < s.nodes.len(),
        s.nodes[j].kind == NodeKind::Input,
    ensures
        forall|t: EngineView<V, F>| #[trigger] recompute_post(s, t) ==> t.nodes[j].value == s.nodes[j].value,
        forall|i: int, v: V|
            0 <= i < s.nodes.len() && i != j ==> (#[trigger] set_input_view(s, i, v)).nodes[j].value == s.nodes[j].value,
        forall|node: NodeView<V, F>| (#[trigger] added_node_view(s, node)).nodes[j].value == s.nodes[j].value,
        forall|node: usize, dep: usize|
            node < s.nodes.len() ==> (#[trigger] added_dep_view(s, node, dep)).nodes[j].value == s.nodes[j].value,
{
    assert forall|t: EngineView<V, F>| #[trigger] recompute_post(s, t) implies t.nodes[j].value == s.nodes[j].value by {
        assert(node_recomputed(s, t, j));
    }
}

/// Only a recomputation writes to the log, and it only appends: setting an input,
/// registering a node and adding a dependency leave the log as it was, and a
/// recomputation keeps the old log as a prefix of the new one.
pub proof fn law_log_only_appended<V, F: Fn(&[Option<&V>]) -> V>(s: EngineView<V, F>)
    ensures
        forall|t: EngineView<V, F>|
            #[trigger] recompute_post(s, t) ==> t.log.len() >= s.log.len() && t.log.subrange(0, s.log.len() as int) == s.log,
        forall|i: int, v: V| (#[trigger] set_input_view(s, i, v)).log == s.log,
        forall|node: NodeView<V, F>| (#[trigger] added_node_view(s, node)).log == s.log,
        forall|node: usize, dep: usize| (#[trigger] added_dep_view(s, node, dep)).log == s.log,
{
    assert forall|t: EngineView<V, F>| #[trigger] recompute_post(s, t) implies t.log.len() >= s.log.len()
        && t.log.subrange(0, s.log.len() as int) == s.log by {
        let ord = choose|ord: Seq<usize>| #[trigger] log_of_recompute(s, t, ord);
    }
}

/// Every clean compute node holds a value computed from the current values of
/// its dependencies.
pub open spec fn fresh<V, F: Fn(&[Option<&V>]) -> V>(s: EngineView<V, F>) -> bool {
    forall|i: int|
        0 <= i < s.nodes.len() && s.nodes[i].kind == NodeKind::Compute && !s.nodes[i].dirty ==> (
        #[trigger] s.nodes[i].value matches Some(v) && computed_from(
            s.nodes[i].compute_fn.unwrap(),
            s.nodes,
            s.nodes[i].deps,
            v,
        ))
}

/// A compute node that depends on a dirty compute node is dirty too.
pub open spec fn dirt_flows_down<V, F>(s: EngineView<V, F>) -> bool {
    forall|e: int|
        0 <= e < s.edges.len() && needs_recompute(s, #[trigger] s.edges[e].0 as int) && s.nodes[s.edges[e].1 as int].kind
            == NodeKind::Compute ==> s.nodes[s.edges[e].1 as int].dirty
}

/// No compute node is dirty, and each holds a value computed from its dependencies.
pub open spec fn settled<V, F: Fn(&[Option<&V>]) -> V>(s: EngineView<V, F>) -> bool {
    &&& fresh(s)
    &&& forall|i: int| 0 <= i < s.nodes.len() && #[trigger] s.nodes[i].kind == NodeKind::Compute ==> !s.nodes[i].dirty
}

/// An engine without nodes (as `new` makes it) starts with its compute nodes up
/// to date and dirtiness flowing down, trivially.
pub proof fn law_empty_engine_fresh<V, F: Fn(&[Option<&V>]) -> V>(s: EngineView<V, F>)
    requires
        s.nodes.len() == 0,
        s.edges.len() == 0,
    ensures
        fresh(s),
        dirt_flows_down(s),
        deps_are_edges(s),
{
}

/// A recomputation from a state whose clean compute nodes are up to date, and in
/// which dirtiness has flowed down to the dependent compute nodes, settles it:
/// afterwards every compute node is clean and holds a value computed from the
/// final values of its dependencies.
pub proof fn law_recompute_settles<V, F: Fn(&[Option<&V>]) -> V>(s0: EngineView<V, F>, s1: EngineView<V, F>)
    requires
        deps_are_edges(s0),
        fresh(s0),
        dirt_flows_down(s0),
        recompute_post(s0, s1),
    ensures
        settled(s1),
        dirt_flows_down(s1),
        deps_are_edges(s1),
{
    law_recompute_cleans(s0, s1);
    assert forall|i: int|
        0 <= i < s1.nodes.len() && s1.nodes[i].kind == NodeKind::Compute && !s1.nodes[i].dirty implies (
        #[trigger] s1.nodes[i].value matches Some(v) && computed_from(
            s1.nodes[i].compute_fn.unwrap(),
            s1.nodes,
            s1.nodes[i].deps,
            v,
        )) by {
        assert(node_recomputed(s0, s1, i));
        if !needs_recompute(s0, i) {
            let deps = s0.nodes[i].deps;
            assert(s0.nodes[i].value matches Some(v) && computed_from(s0.nodes[i].compute_fn.unwrap(), s0.nodes, deps, v));
            assert forall|k: int| 0 <= k < deps.len() implies s1.nodes[#[trigger] deps[k] as int].value
                == s0.nodes[deps[k] as int].value by {
                lemma_dep_edge(s0, i, k);
                let d = deps[k];
                let e = choose|e: int| 0 <= e < s0.edges.len() && s0.edges[e].0 == d && s0.edges[e].1 == i;
                if needs_recompute(s0, d as int) {
                    assert(needs_recompute(s0, s0.edges[e].0 as int));
                }
                assert(node_recomputed(s0, s1, d as int));
            }
            lemma_computed_from_frame(s0.nodes[i].compute_fn.unwrap(), s0.nodes, s1.nodes, deps, s0.nodes[i].value.unwrap());
        }
    }
    assert forall|i: int| 0 <= i < s1.nodes.len() implies #[trigger] s1.nodes[i].deps == in_sources(s1.edges, i as usize) by {
        assert(node_recomputed(s0, s1, i));
    }
}

/// Setting an input keeps the clean compute nodes up to date and dirtiness
/// flowing down: whatever depends on the input, directly or not, becomes dirty.
pub proof fn law_set_input_keeps_fresh<V, F: Fn(&[Option<&V>]) -> V>(s0: EngineView<V, F>, i: int, value: V)
    requires
        deps_are_edges(s0),
        fresh(s0),
        dirt_flows_down(s0),
        0 <= i < s0.nodes.len(),
        s0.nodes[i].kind == NodeKind::Input,
    ensures
        fresh(set_input_view(s0, i, value)),
        dirt_flows_down(set_input_view(s0, i, value)),
        deps_are_edges(set_input_view(s0, i, value)),
{
    let s1 = set_input_view(s0, i, value);
    assert forall|j: int|
        0 <= j < s1.nodes.len() && s1.nodes[j].kind == NodeKind::Compute && !s1.nodes[j].dirty implies (
        #[trigger] s1.nodes[j].value matches Some(v) && computed_from(
            s1.nodes[j].compute_fn.unwrap(),
            s1.nodes,
            s1.nodes[j].deps,
            v,
        )) by {
        let deps = s0.nodes[j].deps;
        assert(j != i);
        assert(s0.nodes[j].value matches Some(v) && computed_from(s0.nodes[j].compute_fn.unwrap(), s0.nodes, deps, v));
        assert forall|k: int| 0 <= k < deps.len() implies s1.nodes[#[trigger] deps[k] as int].value
            == s0.nodes[deps[k] as int].value by {
            lemma_dep_edge(s0, j, k);
            if deps[k] as int == i {
                lemma_edge_reaches(s0.edges, i as usize, j as usize);
            }
        }
        lemma_computed_from_frame(s0.nodes[j].compute_fn.unwrap(), s0.nodes, s1.nodes, deps, s0.nodes[j].value.unwrap());
    }
    assert forall|e: int|
        0 <= e < s1.edges.len() && needs_recompute(s1, #[trigger] s1.edges[e].0 as int) && s1.nodes[s1.edges[e].1 as int].kind
            == NodeKind::Compute implies s1.nodes[s1.edges[e].1 as int].dirty by {
        let a = s0.edges[e].0;
        let b = s0.edges[e].1;
        assert(a < s0.nodes.len() && b < s0.nodes.len());
        assert(b as int != i);
        if !s0.nodes[a as int].dirty {
            assert(reaches(s0.edges, i as usize, a));
            assert(edge_between(s0.edges, a as int, b as int));
            lemma_edge_reaches(s0.edges, a, b);
            lemma_reaches_trans(s0.edges, i as usize, a, b);
        }
    }
}

/// Registering a node keeps the clean compute nodes up to date and dirtiness
/// flowing down, as long as a new compute node starts dirty and without
/// dependencies (as `input` and `compute` create them).
pub proof fn law_add_node_keeps_fresh<V, F: Fn(&[Option<&V>]) -> V>(s0: EngineView<V, F>, node: NodeView<V, F>)
    requires
        deps_are_edges(s0),
        fresh(s0),
        dirt_flows_down(s0),
        node.deps.len() == 0,
        node.kind == NodeKind::Compute ==> node.dirty,
    ensures
        fresh(added_node_view(s0, node)),
        dirt_flows_down(added_node_view(s0, node)),
{
    let s1 = added_node_view(s0, node);
    assert forall|j: int|
        0 <= j < s1.nodes.len() && s1.nodes[j].kind == NodeKind::Compute && !s1.nodes[j].dirty implies (
        #[trigger] s1.nodes[j].value matches Some(v) && computed_from(
            s1.nodes[j].compute_fn.unwrap(),
            s1.nodes,
            s1.nodes[j].deps,
            v,
        )) by {
        assert(j < s0.nodes.len());
        assert(s1.nodes[j] == s0.nodes[j]);
        let deps = s0.nodes[j].deps;
        assert(s0.nodes[j].value matches Some(v) && computed_from(s0.nodes[j].compute_fn.unwrap(), s0.nodes, deps, v));
        assert forall|k: int| 0 <= k < deps.len() implies s1.nodes[#[trigger] deps[k] as int].value
            == s0.nodes[deps[k] as int].value by {
            lemma_dep_edge(s0, j, k);
        }
        lemma_computed_from_frame(s0.nodes[j].compute_fn.unwrap(), s0.nodes, s1.nodes, deps, s0.nodes[j].value.unwrap());
    }
    assert forall|e: int|
        0 <= e < s1.edges.len() && needs_recompute(s1, #[trigger] s1.edges[e].0 as int) && s1.nodes[s1.edges[e].1 as int].kind
            == NodeKind::Compute implies s1.nodes[s1.edges[e].1 as int].dirty by {
        assert(s0.edges[e].0 < s0.nodes.len() && s0.edges[e].1 < s0.nodes.len());
        assert(needs_recompute(s0, s0.edges[e].0 as int));
    }
}

/// Adding a dependency keeps the clean compute nodes up to date and dirtiness
/// flowing down, unless the dependent node is a clean compute node: such a node
/// keeps its old value, computed without the new dependency, until something
/// upstream of it changes.
pub proof fn law_add_dep_keeps_fresh<V, F: Fn(&[Option<&V>]) -> V>(s0: EngineView<V, F>, node: usize, dep: usize)
    requires
        deps_are_edges(s0),
        fresh(s0),
        dirt_flows_down(s0),
        node < s0.nodes.len(),
        dep < s0.nodes.len(),
        !(s0.nodes[node as int].kind == NodeKind::Compute && !s0.nodes[node as int].dirty),
    ensures
        fresh(added_dep_view(s0, node, dep)),
        dirt_flows_down(added_dep_view(s0, node, dep)),
{
    let s1 = added_dep_view(s0, node, dep);
    assert forall|j: int|
        0 <= j < s1.nodes.len() && s1.nodes[j].kind == NodeKind::Compute && !s1.nodes[j].dirty implies (
        #[trigger] s1.nodes[j].value matches Some(v) && computed_from(
            s1.nodes[j].compute_fn.unwrap(),
            s1.nodes,
            s1.nodes[j].deps,
            v,
        )) by {
        assert(j != node as int);
        let deps = s0.nodes[j].deps;
        assert(s0.nodes[j].value matches Some(v) && computed_from(s0.nodes[j].compute_fn.unwrap(), s0.nodes, deps, v));
        assert forall|k: int| 0 <= k < deps.len() implies s1.nodes[#[trigger] deps[k] as int].value
            == s0.nodes[deps[k] as int].value by {
            lemma_dep_edge(s0, j, k);
        }
        lemma_computed_from_frame(s0.nodes[j].compute_fn.unwrap(), s0.nodes, s1.nodes, deps, s0.nodes[j].value.unwrap());
    }
    assert forall|e: int|
        0 <= e < s1.edges.len() && needs_recompute(s1, #[trigger] s1.edges[e].0 as int) && s1.nodes[s1.edges[e].1 as int].kind
            == NodeKind::Compute implies s1.nodes[s1.edges[e].1 as int].dirty by {
        if e < s0.edges.len() {
            assert(s1.edges[e] == s0.edges[e]);
            assert(s0.edges[e].0 < s0.nodes.len() && s0.edges[e].1 < s0.nodes.len());
            assert(needs_recompute(s0, s0.edges[e].0 as int));
        }
    }
}

/// The nodes below `n` from which a walk leads to `i`, `i` itself included.
pub open spec fn ancestors(edges: Seq<(usize, usize)>, n: nat, i: int) -> Set<int> {
    Set::new(|j: int| 0 <= j < n && reaches(edges, j as usize, i as usize))
}

/// Without cycles, a dependency has fewer ancestors than the node that depends on it.
proof fn lemma_ancestors_shrink(edges: Seq<(usize, usize)>, n: nat, d: int, i: int)
    requires
        n <= usize::MAX,
        edges_within(edges, n),
        !has_cycle(edges),
        edge_between(edges, d, i),
        0 <= d < n,
        0 <= i < n,
    ensures
        ancestors(edges, n, d).len() < ancestors(edges, n, i).len(),
{
    let a = ancestors(edges, n, d);
    let b = ancestors(edges, n, i);
    lemma_int_range(0, n as int);
    assert(b.subset_of(set_int_range(0, n as int)));
    lemma_len_subset(b, set_int_range(0, n as int));
    lemma_edge_reaches(edges, d as usize, i as usize);
    let p0 = seq![i as usize];
    assert(is_path(edges, p0));
    assert(b.contains(i));
    assert forall|j: int| #[trigger] a.contains(j) implies b.remove(i).contains(j) by {
        lemma_reaches_trans(edges, j as usize, d as usize, i as usize);
        if j == i {
            let p = choose|p: Seq<usize>| #[trigger] is_path(edges, p) && p[0] == i as usize && p.last() == d as usize;
            let q = p.push(i as usize);
            assert forall|k: int| 0 <= k < q.len() - 1 implies #[trigger] path_step(edges, q, k) by {
                if k < p.len() - 1 {
                    assert(path_step(edges, p, k));
                }
            }
            assert(is_path(edges, q));
        }
    }
    lemma_len_subset(a, b.remove(i));
}

/// Two settled states that share their graph, functions and input values agree
/// on node `i`.
proof fn lemma_settled_agree<V, F: Fn(&[Option<&V>]) -> V>(s1: EngineView<V, F>, s2: EngineView<V, F>, i: int)
    requires
        deps_are_edges(s1),
        !has_cycle(s1.edges),
        s2.nodes.len() == s1.nodes.len(),
        forall|j: int|
            0 <= j < s1.nodes.len() ==> {
                &&& #[trigger] s2.nodes[j].kind == s1.nodes[j].kind
                &&& s2.nodes[j].compute_fn == s1.nodes[j].compute_fn
                &&& s2.nodes[j].deps == s1.nodes[j].deps
                &&& s1.nodes[j].kind == NodeKind::Input ==> s2.nodes[j].value == s1.nodes[j].value
                &&& s1.nodes[j].kind == NodeKind::Compute ==> deterministic(s1.nodes[j].compute_fn.unwrap())
            },
        settled(s1),
        settled(s2),
        0 <= i < s1.nodes.len(),
    ensures
        s1.nodes[i].value == s2.nodes[i].value,
    decreases ancestors(s1.edges, s1.nodes.len(), i).len(),
{
    if s1.nodes[i].kind == NodeKind::Compute {
        let f = s1.nodes[i].compute_fn.unwrap();
        let deps = s1.nodes[i].deps;
        assert(s2.nodes[i].kind == NodeKind::Compute);
        assert(!s1.nodes[i].dirty && !s2.nodes[i].dirty);
        assert(s1.nodes[i].value matches Some(v) && computed_from(f, s1.nodes, deps, v));
        assert(s2.nodes[i].value matches Some(v) && computed_from(f, s2.nodes, deps, v));
        let v1 = s1.nodes[i].value.unwrap();
        let v2 = s2.nodes[i].value.unwrap();
        assert forall|k: int| 0 <= k < deps.len() implies s1.nodes[#[trigger] deps[k] as int].value
            == s2.nodes[deps[k] as int].value by {
            lemma_dep_edge(s1, i, k);
            lemma_ancestors_shrink(s1.edges, s1.nodes.len(), deps[k] as int, i);
            lemma_settled_agree(s1, s2, deps[k] as int);
        }
        let a1 = choose|a1: &[Option<&V>]| #[trigger] f.ensures((a1,), v1) && args_match(a1, s1.nodes, deps);
        let a2 = choose|a2: &[Option<&V>]| #[trigger] f.ensures((a2,), v2) && args_match(a2, s2.nodes, deps);
        assert(a1@ =~= a2@) by {
            assert forall|q: int| 0 <= q < deps.len() implies a1@[q] == a2@[q] by {
                assert(same_value(a1@[q], s1.nodes[deps[q] as int].value));
                assert(same_value(a2@[q], s2.nodes[deps[q] as int].value));
            }
        }
        assert(deterministic(f));
    }
}

/// Incremental recomputation gives what recomputing from scratch gives: a settled
/// state (no compute node dirty, each holding a value computed from its
/// dependencies) is fixed by the graph, the compute functions and the input
/// values. With deterministic functions, two settled states that share those
/// hold the same value in every node.
pub proof fn law_settled_state_unique<V, F: Fn(&[Option<&V>]) -> V>(s1: EngineView<V, F>, s2: EngineView<V, F>)
    requires
        deps_are_edges(s1),
        !has_cycle(s1.edges),
        s2.nodes.len() == s1.nodes.len(),
        forall|j: int|
            0 <= j < s1.nodes.len() ==> {
                &&& #[trigger] s2.nodes[j].kind == s1.nodes[j].kind
                &&& s2.nodes[j].compute_fn == s1.nodes[j].compute_fn
                &&& s2.nodes[j].deps == s1.nodes[j].deps
                &&& s1.nodes[j].kind == NodeKind::Input ==> s2.nodes[j].value == s1.nodes[j].value
                &&& s1.nodes[j].kind == NodeKind::Compute ==> deterministic(s1.nodes[j].compute_fn.unwrap())
            },
        settled(s1),
        settled(s2),
    ensures
        forall|i: int| 0 <= i < s1.nodes.len() ==> #[trigger] s1.nodes[i].value == s2.nodes[i].value,
{
    assert forall|i: int| 0 <= i < s1.nodes.len() implies #[trigger] s1.nodes[i].value == s2.nodes[i].value by {
        lemma_settled_agree(s1, s2, i);
    }
}

/// Log entry `k` of `s1` names a node that needed recomputation in `s0`, and its
/// timing record shows that node's evaluation timed alone, giving the entry's
/// duration.
pub open spec fn timed_own_node<V, F>(s0: EngineView<V, F>, s1: EngineView<V, F>, k: int) -> bool {
    exists|i: usize|
        #![trigger s0.nodes[i as int]]
        i < s0.nodes.len() && needs_recompute(s0, i as int) && s1.log[k].node@ == s0.nodes[i as int].name
            && timed_alone(s1.timings[k], i, s1.log[k].duration_us)
}

/// Each entry that a recomputation logs carries the time of its own node's
/// evaluation alone. Beside the entry stands the record of the stopwatch that
/// measured it: the clock was read, then that node's function was called and
/// returned, then the microseconds since that reading were read, and they are
/// the entry's duration. No other node's evaluation lies inside the span, and
/// the reading comes after the function returned.
pub proof fn law_logged_duration_is_own_evaluation<V, F: Fn(&[Option<&V>]) -> V>(s0: EngineView<V, F>, s1: EngineView<V, F>)
    requires
        recompute_post(s0, s1),
        s0.timings.len() == s0.log.len(),
    ensures
        s1.timings.len() == s1.log.len(),
        s1.timings.subrange(0, s0.timings.len() as int) == s0.timings,
        forall|k: int| s0.log.len() <= k < s1.log.len() ==> #[trigger] timed_own_node(s0, s1, k),
{
    let ord = choose|ord: Seq<usize>| #[trigger] log_of_recompute(s0, s1, ord);
    assert forall|k: int| s0.log.len() <= k < s1.log.len() implies #[trigger] timed_own_node(s0, s1, k) by {
        let q = k - s0.log.len();
        assert(s1.log[s0.log.len() + q] == s1.log[k]);
        assert(s1.timings[s0.timings.len() + q] == s1.timings[k]);
        assert(timed_alone(s1.timings[s0.timings.len() + q], ord[q], s1.log[s0.log.len() + q].duration_us));
        assert(ord[q] < s0.nodes.len() && needs_recompute(s0, ord[q] as int));
    }
}

} // verus!
