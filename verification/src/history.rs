//! Call histories: the engine states that a run of public calls passes through,
//! and laws over whole histories.
use crate::engine::{
    added_dep_view, added_node_view, deps_are_edges, node_of, node_recomputed, recompute_post,
    set_input_view, DeltaForge, EngineView,
};
use crate::graph::has_cycle;
use crate::laws::{
    deterministic, dirt_flows_down, fresh, law_add_dep_keeps_fresh, law_add_node_keeps_fresh, law_empty_engine_fresh,
    law_recompute_settles, law_set_input_keeps_fresh, law_settled_state_unique,
};
use crate::log::LogEntry;
use crate::node::{NodeKind, NodeView};
use vstd::prelude::*;

verus! {

/// A public call that changes an engine. `Recompute` stands for `topo_recompute`
/// and `topo_recompute_parallel` alike: both have the same contract.
pub enum EngineCall<V, F> {
    Input(String),
    Compute(String, F),
    AddDep(String, String),
    SetInput(String, V),
    Recompute,
    ClearLog,
}

/// The state that a call other than a recomputation leaves behind, as its
/// contract gives it (a refused `add_dep` or `set_input` changes nothing).
pub open spec fn call_result<V, F>(s: EngineView<V, F>, c: EngineCall<V, F>) -> EngineView<V, F> {
    match c {
        EngineCall::Input(name) => added_node_view(
            s,
            NodeView {
                name: name@,
                kind: NodeKind::Input,
                dirty: false,
                value: None,
                compute_fn: None,
                deps: Seq::empty(),
            },
        ),
        EngineCall::Compute(name, f) => added_node_view(
            s,
            NodeView {
                name: name@,
                kind: NodeKind::Compute,
                dirty: true,
                value: None,
                compute_fn: Some(f),
                deps: Seq::empty(),
            },
        ),
        EngineCall::AddDep(node, dep) => if s.index.contains_key(node@) && s.index.contains_key(dep@) && !has_cycle(
            s.edges.push((s.index[dep@], s.index[node@])),
        ) {
            added_dep_view(s, s.index[node@], s.index[dep@])
        } else {
            s
        },
        EngineCall::SetInput(name, v) => if s.index.contains_key(name@) && node_of(s, name@).kind == NodeKind::Input {
            set_input_view(s, s.index[name@] as int, v)
        } else {
            s
        },
        EngineCall::Recompute => s,
        EngineCall::ClearLog => EngineView { log: Seq::empty(), timings: Seq::empty(), ..s },
    }
}

/// `t` is a state that call `c` can leave behind from `s`, by the call's contract.
pub open spec fn call_step<V, F: Fn(&[Option<&V>]) -> V>(
    s: EngineView<V, F>,
    c: EngineCall<V, F>,
    t: EngineView<V, F>,
) -> bool {
    if c is Recompute {
        recompute_post(s, t)
    } else {
        t == call_result(s, c)
    }
}

/// `states[k + 1]` is what `calls[k]` left behind from `states[k]`, for every `k`.
pub open spec fn is_history<V, F: Fn(&[Option<&V>]) -> V>(
    states: Seq<EngineView<V, F>>,
    calls: Seq<EngineCall<V, F>>,
) -> bool {
    &&& states.len() == calls.len() + 1
    &&& forall|k: int| 0 <= k < calls.len() ==> #[trigger] call_step(states[k], calls[k], states[k + 1])
}

/// What holds of every state an engine can be in: the dependency lists match
/// the edges, there is no cycle, and every name indexes a node of that name.
pub open spec fn valid_state<V, F>(s: EngineView<V, F>) -> bool {
    &&& deps_are_edges(s)
    &&& !has_cycle(s.edges)
    &&& forall|k: Seq<char>| #[trigger]
        s.index.contains_key(k) ==> s.index[k] < s.nodes.len() && node_of(s, k).name == k
}

/// Every state of an engine is valid.
pub proof fn law_engine_state_valid<V, F: Fn(&[Option<&V>]) -> V>(df: &DeltaForge<V, F>)
    requires
        df.wf(),
    ensures
        valid_state(df@),
{
    df.law_structure();
}

/// Call `c` registers a node named `name` or sets the input named `name`.
pub open spec fn touches_name<V, F>(c: EngineCall<V, F>, name: Seq<char>) -> bool {
    match c {
        EngineCall::Input(n) => n@ == name,
        EngineCall::Compute(n, _) => n@ == name,
        EngineCall::SetInput(n, _) => n@ == name,
        _ => false,
    }
}

/// After a successful `set_input` at call `k`, the input keeps the value until
/// `j`, and `name` keeps indexing it.
proof fn lemma_set_value_kept<V, F: Fn(&[Option<&V>]) -> V>(
    states: Seq<EngineView<V, F>>,
    calls: Seq<EngineCall<V, F>>,
    k: int,
    name: Seq<char>,
    v: V,
    j: int,
)
    requires
        is_history(states, calls),
        forall|m: int| 0 <= m < states.len() ==> valid_state(#[trigger] states[m]),
        0 <= k < calls.len(),
        calls[k] matches EngineCall::SetInput(n, x) && n@ == name && x == v,
        states[k].index.contains_key(name),
        node_of(states[k], name).kind == NodeKind::Input,
        forall|m: int| k < m < calls.len() ==> !touches_name(#[trigger] calls[m], name),
        k < j <= calls.len(),
    ensures
        states[j].index.contains_key(name),
        states[j].index[name] == states[k].index[name],
        node_of(states[j], name).kind == NodeKind::Input,
        node_of(states[j], name).value == Some(v),
    decreases j - k,
{
    assert(call_step(states[k], calls[k], states[k + 1]));
    if j > k + 1 {
        lemma_set_value_kept(states, calls, k, name, v, j - 1);
        let p = j - 1;
        assert(call_step(states[p], calls[p], states[p + 1]));
        let s = states[p];
        let t = states[j];
        let c = calls[j - 1];
        let i = s.index[name] as int;
        assert(call_step(s, c, t));
        assert(!touches_name(c, name));
        assert(valid_state(s));
        assert(s.index.contains_key(name));
        match c {
            EngineCall::Recompute => {
                assert(node_recomputed(s, t, i));
            },
            EngineCall::SetInput(n, x) => {
                if s.index.contains_key(n@) && node_of(s, n@).kind == NodeKind::Input {
                    assert(node_of(s, n@).name == n@);
                    assert(node_of(s, name).name == name);
                    assert(s.index[n@] as int != i);
                }
            },
            _ => {},
        }
    }
}

/// A read gives back the last value set: once `set_input(name, v)` succeeded
/// at call `k`, and no later call sets `name` or registers a node under that
/// name, the input that `name` indexes holds `v` (so `get(name)` returns a
/// clone of it), whatever recomputations, dependencies, other inputs and log
/// clearing came in between.
pub proof fn law_read_gives_last_set<V, F: Fn(&[Option<&V>]) -> V>(
    states: Seq<EngineView<V, F>>,
    calls: Seq<EngineCall<V, F>>,
    k: int,
    name: Seq<char>,
    v: V,
)
    requires
        is_history(states, calls),
        forall|m: int| 0 <= m < states.len() ==> valid_state(#[trigger] states[m]),
        0 <= k < calls.len(),
        calls[k] matches EngineCall::SetInput(n, x) && n@ == name && x == v,
        states[k].index.contains_key(name),
        node_of(states[k], name).kind == NodeKind::Input,
        forall|m: int| k < m < calls.len() ==> !touches_name(#[trigger] calls[m], name),
    ensures
        states.last().index.contains_key(name),
        node_of(states.last(), name).kind == NodeKind::Input,
        node_of(states.last(), name).value == Some(v),
{
    lemma_set_value_kept(states, calls, k, name, v, calls.len() as int);
}

/// The entries that call `j` appended to the log: those of a recomputation,
/// nothing for any other call.
pub open spec fn appended_by<V, F>(states: Seq<EngineView<V, F>>, calls: Seq<EngineCall<V, F>>, j: int) -> Seq<LogEntry> {
    if calls[j] is Recompute {
        states[j + 1].log.subrange(states[j].log.len() as int, states[j + 1].log.len() as int)
    } else {
        Seq::empty()
    }
}

/// The entries appended by the calls `m .. j`, in call order.
pub open spec fn appended_between<V, F>(
    states: Seq<EngineView<V, F>>,
    calls: Seq<EngineCall<V, F>>,
    m: int,
    j: int,
) -> Seq<LogEntry>
    decreases j - m,
{
    if j <= m {
        Seq::empty()
    } else {
        appended_between(states, calls, m, j - 1) + appended_by(states, calls, j - 1)
    }
}

/// The position of the last `clear_log` among `calls`, or -1 when there is none.
pub open spec fn last_clear_log<V, F>(calls: Seq<EngineCall<V, F>>) -> int
    decreases calls.len(),
{
    if calls.len() == 0 {
        -1
    } else if calls.last() is ClearLog {
        calls.len() - 1
    } else {
        last_clear_log(calls.drop_last())
    }
}

proof fn lemma_last_clear_log<V, F>(calls: Seq<EngineCall<V, F>>)
    ensures
        -1 <= last_clear_log(calls) < calls.len(),
        last_clear_log(calls) >= 0 ==> calls[last_clear_log(calls)] is ClearLog,
        forall|m: int| last_clear_log(calls) < m < calls.len() ==> !(#[trigger] calls[m] is ClearLog),
    decreases calls.len(),
{
    if calls.len() > 0 && !(calls.last() is ClearLog) {
        let rest = calls.drop_last();
        lemma_last_clear_log(rest);
        assert forall|m: int| last_clear_log(calls) < m < calls.len() implies !(#[trigger] calls[m] is ClearLog) by {
            if m < calls.len() - 1 {
                assert(calls[m] == rest[m]);
            }
        }
    }
}

/// Without a `clear_log` among the calls `m .. j`, the log after them is the log
/// before them followed by what each appended.
proof fn lemma_log_between<V, F: Fn(&[Option<&V>]) -> V>(
    states: Seq<EngineView<V, F>>,
    calls: Seq<EngineCall<V, F>>,
    m: int,
    j: int,
)
    requires
        is_history(states, calls),
        0 <= m <= j <= calls.len(),
        forall|q: int| m <= q < j ==> !(#[trigger] calls[q] is ClearLog),
    ensures
        states[j].log == states[m].log + appended_between(states, calls, m, j),
    decreases j - m,
{
    if j > m {
        lemma_log_between(states, calls, m, j - 1);
        let p = j - 1;
        assert(call_step(states[p], calls[p], states[p + 1]));
        assert(!(calls[p] is ClearLog));
        let s = states[p];
        let t = states[p + 1];
        if calls[p] is Recompute {
            let ord = choose|ord: Seq<usize>| #[trigger] crate::engine::log_of_recompute(s, t, ord);
            assert(t.log =~= s.log + t.log.subrange(s.log.len() as int, t.log.len() as int));
        } else {
            assert(t.log == s.log);
        }
        assert(states[j].log =~= states[m].log + appended_between(states, calls, m, j));
    } else {
        assert(states[j].log =~= states[m].log + Seq::<LogEntry>::empty());
    }
}

/// The log is what the recomputations appended since the last `clear_log`, in
/// call order: after any history, the log holds the entries appended by each
/// recomputation after the last `clear_log`, one recomputation after another;
/// without a `clear_log`, they follow the log the history started from (empty
/// for an engine made by `new`).
pub proof fn law_log_is_appended_entries<V, F: Fn(&[Option<&V>]) -> V>(
    states: Seq<EngineView<V, F>>,
    calls: Seq<EngineCall<V, F>>,
)
    requires
        is_history(states, calls),
    ensures
        states.last().log == (if last_clear_log(calls) < 0 {
            states[0].log
        } else {
            Seq::<LogEntry>::empty()
        }) + appended_between(states, calls, last_clear_log(calls) + 1, calls.len() as int),
{
    lemma_last_clear_log(calls);
    let c = last_clear_log(calls);
    lemma_log_between(states, calls, c + 1, calls.len() as int);
    if c >= 0 {
        assert(call_step(states[c], calls[c], states[c + 1]));
    }
}

/// What a history fixes of a state: the nodes with their names, kinds,
/// functions, dependencies and input values, the edges and the names; not the
/// dirty flags, the computed values, or the log and its timings.
pub open spec fn shape<V, F>(s: EngineView<V, F>) -> EngineView<V, F> {
    EngineView {
        nodes: Seq::new(
            s.nodes.len(),
            |i: int|
                NodeView {
                    dirty: false,
                    value: if s.nodes[i].kind == NodeKind::Input {
                        s.nodes[i].value
                    } else {
                        None
                    },
                    ..s.nodes[i]
                },
        ),
        log: Seq::empty(),
        timings: Seq::empty(),
        ..s
    }
}

/// Call `c` builds the graph or sets an input (it is no recomputation and no
/// `clear_log`).
pub open spec fn builds<V, F>(c: EngineCall<V, F>) -> bool {
    !(c is Recompute) && !(c is ClearLog)
}

/// The calls among `calls` that build the graph or set inputs, in order.
pub open spec fn building_calls<V, F>(calls: Seq<EngineCall<V, F>>) -> Seq<EngineCall<V, F>>
    decreases calls.len(),
{
    if calls.len() == 0 {
        Seq::empty()
    } else if builds(calls.last()) {
        building_calls(calls.drop_last()).push(calls.last())
    } else {
        building_calls(calls.drop_last())
    }
}

/// The shape after the building calls `cs`, starting from the shape `sh`.
pub open spec fn replay_shape<V, F>(sh: EngineView<V, F>, cs: Seq<EngineCall<V, F>>) -> EngineView<V, F>
    decreases cs.len(),
{
    if cs.len() == 0 {
        sh
    } else {
        shape(call_result(replay_shape(sh, cs.drop_last()), cs.last()))
    }
}

/// Call `c` adds a dependency to a clean compute node.
pub open spec fn adds_dep_to_clean_node<V, F>(s: EngineView<V, F>, c: EngineCall<V, F>) -> bool {
    match c {
        EngineCall::AddDep(node, _) => s.index.contains_key(node@) && node_of(s, node@).kind == NodeKind::Compute
            && !node_of(s, node@).dirty,
        _ => false,
    }
}

/// A building call does the same to a state's shape as to the state.
proof fn lemma_shape_commutes<V, F>(s: EngineView<V, F>, c: EngineCall<V, F>)
    requires
        valid_state(s),
        builds(c),
    ensures
        shape(call_result(s, c)) == shape(call_result(shape(s), c)),
{
    let sh = shape(s);
    let a = shape(call_result(s, c));
    let b = shape(call_result(sh, c));
    assert(sh.index == s.index && sh.edges == s.edges && sh.nodes.len() == s.nodes.len());
    match c {
        EngineCall::SetInput(name, v) => {
            if s.index.contains_key(name@) {
                assert(sh.nodes[s.index[name@] as int].kind == s.nodes[s.index[name@] as int].kind);
            }
        },
        _ => {},
    }
    assert(a.nodes =~= b.nodes);
}

/// A recomputation or a `clear_log` leaves the shape as it was.
proof fn lemma_shape_kept<V, F: Fn(&[Option<&V>]) -> V>(s: EngineView<V, F>, c: EngineCall<V, F>, t: EngineView<V, F>)
    requires
        call_step(s, c, t),
        !builds(c),
    ensures
        shape(t) == shape(s),
{
    if c is Recompute {
        assert forall|i: int| 0 <= i < s.nodes.len() implies #[trigger] shape(t).nodes[i] == shape(s).nodes[i] by {
            assert(node_recomputed(s, t, i));
        }
    }
    assert(shape(t).nodes =~= shape(s).nodes);
}

/// After the calls `0 .. j` of a history, the shape is what the building calls
/// among them make of the first state's shape.
proof fn lemma_history_shape<V, F: Fn(&[Option<&V>]) -> V>(
    states: Seq<EngineView<V, F>>,
    calls: Seq<EngineCall<V, F>>,
    j: int,
)
    requires
        is_history(states, calls),
        forall|m: int| 0 <= m < states.len() ==> valid_state(#[trigger] states[m]),
        0 <= j <= calls.len(),
    ensures
        shape(states[j]) == replay_shape(shape(states[0]), building_calls(calls.take(j))),
    decreases j,
{
    if j == 0 {
        assert(calls.take(0) =~= Seq::<EngineCall<V, F>>::empty());
        assert(shape(shape(states[0])).nodes =~= shape(states[0]).nodes);
    } else {
        let p = j - 1;
        lemma_history_shape(states, calls, p);
        assert(call_step(states[p], calls[p], states[p + 1]));
        assert(calls.take(j).drop_last() =~= calls.take(p));
        assert(calls.take(j).last() == calls[p]);
        let prev = building_calls(calls.take(p));
        if builds(calls[p]) {
            assert(valid_state(states[p]));
            lemma_shape_commutes(states[p], calls[p]);
            assert(building_calls(calls.take(j)) == prev.push(calls[p]));
            assert(prev.push(calls[p]).drop_last() =~= prev);
        } else {
            lemma_shape_kept(states[p], calls[p], states[p + 1]);
        }
    }
}

/// Along a history without a dependency added to a clean compute node, the
/// clean compute nodes stay up to date and dirtiness keeps flowing down.
proof fn lemma_history_fresh<V, F: Fn(&[Option<&V>]) -> V>(
    states: Seq<EngineView<V, F>>,
    calls: Seq<EngineCall<V, F>>,
    j: int,
)
    requires
        is_history(states, calls),
        forall|m: int| 0 <= m < states.len() ==> valid_state(#[trigger] states[m]),
        fresh(states[0]),
        dirt_flows_down(states[0]),
        forall|k: int| 0 <= k < calls.len() ==> !adds_dep_to_clean_node(states[k], #[trigger] calls[k]),
        0 <= j <= calls.len(),
    ensures
        fresh(states[j]),
        dirt_flows_down(states[j]),
    decreases j,
{
    if j > 0 {
        let p = j - 1;
        lemma_history_fresh(states, calls, p);
        assert(call_step(states[p], calls[p], states[p + 1]));
        assert(valid_state(states[p]));
        let s = states[p];
        let t = states[p + 1];
        match calls[p] {
            EngineCall::Input(name) => {
                law_add_node_keeps_fresh(
                    s,
                    NodeView {
                        name: name@,
                        kind: NodeKind::Input,
                        dirty: false,
                        value: None,
                        compute_fn: None,
                        deps: Seq::empty(),
                    },
                );
            },
            EngineCall::Compute(name, f) => {
                law_add_node_keeps_fresh(
                    s,
                    NodeView {
                        name: name@,
                        kind: NodeKind::Compute,
                        dirty: true,
                        value: None,
                        compute_fn: Some(f),
                        deps: Seq::empty(),
                    },
                );
            },
            EngineCall::AddDep(node, dep) => {
                if s.index.contains_key(node@) && s.index.contains_key(dep@) && !has_cycle(
                    s.edges.push((s.index[dep@], s.index[node@])),
                ) {
                    assert(!adds_dep_to_clean_node(s, calls[p]));
                    law_add_dep_keeps_fresh(s, s.index[node@], s.index[dep@]);
                }
            },
            EngineCall::SetInput(name, v) => {
                if s.index.contains_key(name@) && node_of(s, name@).kind == NodeKind::Input {
                    law_set_input_keeps_fresh(s, s.index[name@] as int, v);
                }
            },
            EngineCall::Recompute => {
                law_recompute_settles(s, t);
            },
            EngineCall::ClearLog => {
                assert(t.nodes == s.nodes && t.edges == s.edges);
            },
        }
    }
}

/// A history from an engine without nodes that has not recomputed yet leaves
/// every compute node dirty.
proof fn lemma_compute_nodes_dirty<V, F: Fn(&[Option<&V>]) -> V>(
    states: Seq<EngineView<V, F>>,
    calls: Seq<EngineCall<V, F>>,
    j: int,
)
    requires
        is_history(states, calls),
        forall|m: int| 0 <= m < states.len() ==> valid_state(#[trigger] states[m]),
        states[0].nodes.len() == 0,
        0 <= j <= calls.len(),
        forall|k: int| 0 <= k < j ==> !(#[trigger] calls[k] is Recompute),
    ensures
        forall|i: int|
            0 <= i < states[j].nodes.len() && #[trigger] states[j].nodes[i].kind == NodeKind::Compute
                ==> states[j].nodes[i].dirty,
    decreases j,
{
    if j > 0 {
        let p = j - 1;
        lemma_compute_nodes_dirty(states, calls, p);
        assert(call_step(states[p], calls[p], states[p + 1]));
        assert(!(calls[p] is Recompute));
        let s = states[p];
        let t = states[p + 1];
        assert forall|i: int| 0 <= i < t.nodes.len() && #[trigger] t.nodes[i].kind == NodeKind::Compute implies t.nodes[i].dirty by {
            match calls[p] {
                EngineCall::Input(_) => {
                    if i < s.nodes.len() {
                        assert(t.nodes[i] == s.nodes[i]);
                    }
                },
                EngineCall::Compute(_, _) => {
                    if i < s.nodes.len() {
                        assert(t.nodes[i] == s.nodes[i]);
                    }
                },
                EngineCall::AddDep(_, _) => {
                    assert(t.nodes[i].kind == s.nodes[i].kind && t.nodes[i].dirty == s.nodes[i].dirty);
                },
                EngineCall::SetInput(name, _) => {
                    assert(t.nodes[i].kind == s.nodes[i].kind);
                    if s.index.contains_key(name@) && node_of(s, name@).kind == NodeKind::Input {
                        assert(valid_state(s));
                        assert(i != s.index[name@] as int);
                    }
                },
                _ => {},
            }
        }
    }
}

/// Incremental recomputation gives what recomputing from scratch gives. Take
/// two engines made by `new` and fed the same calls that build the graph and
/// set inputs, in the same order: the first recomputes whenever it likes (and
/// clears its log whenever it likes), the second only once at the end, and
/// both end with a recomputation. When the first never adds a dependency to a
/// compute node that is clean at the time, and the compute functions are
/// deterministic, both end with the same value in every node.
pub proof fn law_incremental_equals_from_scratch<V, F: Fn(&[Option<&V>]) -> V>(
    states1: Seq<EngineView<V, F>>,
    calls1: Seq<EngineCall<V, F>>,
    states2: Seq<EngineView<V, F>>,
    calls2: Seq<EngineCall<V, F>>,
)
    requires
        is_history(states1, calls1),
        is_history(states2, calls2),
        forall|m: int| 0 <= m < states1.len() ==> valid_state(#[trigger] states1[m]),
        forall|m: int| 0 <= m < states2.len() ==> valid_state(#[trigger] states2[m]),
        states1[0].nodes.len() == 0 && states1[0].edges.len() == 0 && states1[0].index == Map::<Seq<char>, usize>::empty(),
        states2[0].nodes.len() == 0 && states2[0].edges.len() == 0 && states2[0].index == Map::<Seq<char>, usize>::empty(),
        building_calls(calls1) == building_calls(calls2),
        calls1.len() > 0 && calls1.last() is Recompute,
        calls2.len() > 0 && calls2.last() is Recompute,
        forall|k: int| 0 <= k < calls2.len() - 1 ==> !(#[trigger] calls2[k] is Recompute),
        forall|k: int| 0 <= k < calls1.len() ==> !adds_dep_to_clean_node(states1[k], #[trigger] calls1[k]),
        forall|i: int|
            0 <= i < states1.last().nodes.len() && #[trigger] states1.last().nodes[i].kind == NodeKind::Compute
                ==> deterministic(states1.last().nodes[i].compute_fn.unwrap()),
    ensures
        states1.last().nodes.len() == states2.last().nodes.len(),
        forall|i: int| 0 <= i < states1.last().nodes.len() ==> #[trigger] states1.last().nodes[i].value == states2.last().nodes[i].value,
{
    let n1 = calls1.len() as int;
    let n2 = calls2.len() as int;
    let last1 = states1[n1];
    let last2 = states2[n2];
    // Both histories end in the same shape.
    assert(shape(states1[0]).nodes =~= shape(states2[0]).nodes);
    assert(states1[0].edges =~= states2[0].edges);
    assert(shape(states1[0]) == shape(states2[0]));
    lemma_history_shape(states1, calls1, n1);
    lemma_history_shape(states2, calls2, n2);
    assert(calls1.take(n1) =~= calls1);
    assert(calls2.take(n2) =~= calls2);
    assert(shape(last1) == shape(last2));
    // Both end settled.
    law_empty_engine_fresh(states1[0]);
    law_empty_engine_fresh(states2[0]);
    lemma_history_fresh(states1, calls1, n1 - 1);
    lemma_compute_nodes_dirty(states2, calls2, n2 - 1);
    assert forall|k: int| 0 <= k < calls2.len() implies !adds_dep_to_clean_node(states2[k], #[trigger] calls2[k]) by {
        if k < n2 - 1 {
            lemma_compute_nodes_dirty(states2, calls2, k);
            match calls2[k] {
                EngineCall::AddDep(node, _) => {
                    if states2[k].index.contains_key(node@) {
                        assert(valid_state(states2[k]));
                    }
                },
                _ => {},
            }
        }
    }
    lemma_history_fresh(states2, calls2, n2 - 1);
    assert(call_step(states1[n1 - 1], calls1[n1 - 1], states1[n1 - 1 + 1]));
    assert(call_step(states2[n2 - 1], calls2[n2 - 1], states2[n2 - 1 + 1]));
    assert(valid_state(states1[n1 - 1]) && valid_state(states2[n2 - 1]));
    law_recompute_settles(states1[n1 - 1], last1);
    law_recompute_settles(states2[n2 - 1], last2);
    // Settled states of one shape agree.
    assert(valid_state(last1));
    assert(last1.nodes.len() == shape(last1).nodes.len());
    assert forall|j: int| 0 <= j < last1.nodes.len() implies {
        &&& #[trigger] last2.nodes[j].kind == last1.nodes[j].kind
        &&& last2.nodes[j].compute_fn == last1.nodes[j].compute_fn
        &&& last2.nodes[j].deps == last1.nodes[j].deps
        &&& last1.nodes[j].kind == NodeKind::Input ==> last2.nodes[j].value == last1.nodes[j].value
        &&& last1.nodes[j].kind == NodeKind::Compute ==> deterministic(last1.nodes[j].compute_fn.unwrap())
    } by {
        assert(shape(last1).nodes[j] == shape(last2).nodes[j]);
    }
    law_settled_state_unique(last1, last2);
}

} // verus!
