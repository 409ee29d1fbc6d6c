use delta_forge::{DeltaForge, EngineError, NodeKind};

type Fun = Box<dyn Fn(&[Option<&i64>]) -> i64 + Send + Sync>;

fn value_of(deps: &[Option<&i64>], k: usize) -> i64 {
    deps[k].copied().unwrap_or(0)
}

fn build_dag() -> DeltaForge<i64, Fun> {
    let mut df: DeltaForge<i64, Fun> = DeltaForge::new();
    df.input("a");
    df.input("b");
    df.compute(
        "sum",
        Box::new(|deps: &[Option<&i64>]| {
            let a = value_of(deps, 0);
            let b = value_of(deps, 1);
            a + b
        }),
    );
    df.add_dep("sum", "a").unwrap();
    df.add_dep("sum", "b").unwrap();
    df
}

fn logged_names(df: &DeltaForge<i64, Fun>) -> Vec<String> {
    df.log().entries().iter().map(|e| e.node.clone()).collect()
}

#[test]
fn basic_recompute() {
    let mut df = build_dag();
    df.set_input("a", 3_i64).unwrap();
    df.set_input("b", 4_i64).unwrap();
    df.topo_recompute().unwrap();
    assert_eq!(df.get("sum").unwrap(), 7);
}

#[test]
fn incremental_only_recomputes_dirty() {
    let mut df = build_dag();
    df.set_input("a", 1_i64).unwrap();
    df.set_input("b", 2_i64).unwrap();
    df.topo_recompute().unwrap();
    assert_eq!(df.log().entries().len(), 1); // only "sum"

    df.clear_log();
    // change b → sum should recompute; a is untouched
    df.set_input("b", 10_i64).unwrap();
    df.topo_recompute().unwrap();
    assert_eq!(df.get("sum").unwrap(), 11);
    assert_eq!(df.log().entries().len(), 1);
}

#[test]
fn cycle_detection() {
    let mut df: DeltaForge<i64, Fun> = DeltaForge::new();
    df.input("x");
    df.compute("y", Box::new(|_: &[Option<&i64>]| 0_i64));
    df.add_dep("y", "x").unwrap();
    // x depends on y → would form x→y→x cycle
    assert!(df.add_dep("x", "y").is_err());
}

#[test]
fn parallel_recompute_matches_sequential() {
    let mut df = build_dag();
    df.set_input("a", 5_i64).unwrap();
    df.set_input("b", 6_i64).unwrap();
    df.topo_recompute_parallel().unwrap();
    assert_eq!(df.get("sum").unwrap(), 11);
}

#[test]
fn node_indices_count_up() {
    let mut df: DeltaForge<i64, Fun> = DeltaForge::new();
    assert_eq!(df.input("a"), 0);
    assert_eq!(df.compute("c", Box::new(|_: &[Option<&i64>]| 1_i64)), 1);
    assert_eq!(df.input("b"), 2);
}

#[test]
fn dependencies_arrive_in_the_order_they_were_added() {
    let mut df: DeltaForge<i64, Fun> = DeltaForge::new();
    df.input("a");
    df.input("b");
    df.compute("diff", Box::new(|deps: &[Option<&i64>]| value_of(deps, 0) - value_of(deps, 1)));
    df.add_dep("diff", "a").unwrap();
    df.add_dep("diff", "b").unwrap();
    df.set_input("a", 10_i64).unwrap();
    df.set_input("b", 3_i64).unwrap();
    df.topo_recompute().unwrap();
    assert_eq!(df.get("diff").unwrap(), 7);
}

#[test]
fn missing_dependency_value_is_passed_as_none() {
    let mut df: DeltaForge<i64, Fun> = DeltaForge::new();
    df.input("a");
    df.compute(
        "flag",
        Box::new(|deps: &[Option<&i64>]| if deps[0].is_none() { -1 } else { 1 }),
    );
    df.add_dep("flag", "a").unwrap();
    df.topo_recompute().unwrap();
    assert_eq!(df.get("flag").unwrap(), -1);
}

fn chain() -> DeltaForge<i64, Fun> {
    let mut df: DeltaForge<i64, Fun> = DeltaForge::new();
    df.input("input");
    df.compute(
        "c",
        Box::new(|deps: &[Option<&i64>]| deps.iter().map(|d| d.copied().unwrap_or(0)).sum::<i64>() * 10),
    );
    df.compute("b", Box::new(|deps: &[Option<&i64>]| value_of(deps, 0) + 1));
    df.compute("a", Box::new(|deps: &[Option<&i64>]| value_of(deps, 0) * 2));
    df.add_dep("a", "input").unwrap();
    df.add_dep("b", "a").unwrap();
    df.add_dep("c", "b").unwrap();
    df
}

#[test]
fn chain_recomputes_in_dependency_order() {
    let mut df = chain();
    df.set_input("input", 4_i64).unwrap();
    df.topo_recompute().unwrap();
    assert_eq!(df.get("a").unwrap(), 8);
    assert_eq!(df.get("b").unwrap(), 9);
    assert_eq!(df.get("c").unwrap(), 90);
    assert_eq!(logged_names(&df), vec!["a", "b", "c"]);
}

#[test]
fn input_change_marks_whole_chain_dirty() {
    let mut df = chain();
    df.set_input("input", 1_i64).unwrap();
    df.topo_recompute().unwrap();
    df.clear_log();
    df.set_input("input", 2_i64).unwrap();
    df.topo_recompute().unwrap();
    assert_eq!(logged_names(&df), vec!["a", "b", "c"]);
    assert_eq!(df.get("c").unwrap(), 50);
}

#[test]
fn untouched_branch_is_not_recomputed() {
    let mut df: DeltaForge<i64, Fun> = DeltaForge::new();
    df.input("x");
    df.input("y");
    df.compute("fx", Box::new(|deps: &[Option<&i64>]| value_of(deps, 0) + 100));
    df.compute("fy", Box::new(|deps: &[Option<&i64>]| value_of(deps, 0) + 200));
    df.add_dep("fx", "x").unwrap();
    df.add_dep("fy", "y").unwrap();
    df.set_input("x", 1_i64).unwrap();
    df.set_input("y", 2_i64).unwrap();
    df.topo_recompute().unwrap();
    assert_eq!(df.log().entries().len(), 2);
    df.clear_log();
    df.set_input("y", 5_i64).unwrap();
    df.topo_recompute().unwrap();
    assert_eq!(logged_names(&df), vec!["fy"]);
    assert_eq!(df.get("fx").unwrap(), 101);
    assert_eq!(df.get("fy").unwrap(), 205);
}

#[test]
fn second_recompute_logs_nothing() {
    let mut df = build_dag();
    df.set_input("a", 1_i64).unwrap();
    df.set_input("b", 1_i64).unwrap();
    df.topo_recompute().unwrap();
    df.clear_log();
    df.topo_recompute().unwrap();
    assert_eq!(df.log().entries().len(), 0);
    assert_eq!(df.get("sum").unwrap(), 2);
}

#[test]
fn get_after_set_input_returns_the_value() {
    let mut df = build_dag();
    df.set_input("a", 42_i64).unwrap();
    assert_eq!(df.get("a").unwrap(), 42);
}

#[test]
fn set_input_on_unknown_node_fails() {
    let mut df = build_dag();
    assert_eq!(
        df.set_input("zz", 1_i64),
        Err(EngineError::NodeNotFound("zz".to_string()))
    );
}

#[test]
fn set_input_on_compute_node_fails() {
    let mut df = build_dag();
    assert_eq!(
        df.set_input("sum", 1_i64),
        Err(EngineError::NotInput("sum".to_string()))
    );
}

#[test]
fn get_without_value_fails() {
    let df = build_dag();
    assert_eq!(df.get("sum"), Err(EngineError::NoValue("sum".to_string())));
    assert_eq!(df.get("a"), Err(EngineError::NoValue("a".to_string())));
    assert_eq!(df.get("nope"), Err(EngineError::NodeNotFound("nope".to_string())));
}

#[test]
fn add_dep_on_unknown_nodes_fails() {
    let mut df = build_dag();
    assert_eq!(
        df.add_dep("zz", "a"),
        Err(EngineError::NodeNotFound("zz".to_string()))
    );
    assert_eq!(
        df.add_dep("sum", "zz"),
        Err(EngineError::NodeNotFound("zz".to_string()))
    );
}

#[test]
fn self_dependency_is_refused() {
    let mut df = build_dag();
    assert_eq!(
        df.add_dep("sum", "sum"),
        Err(EngineError::WouldCycle {
            dep: "sum".to_string(),
            node: "sum".to_string()
        })
    );
}

#[test]
fn refused_dependency_leaves_the_graph_as_it_was() {
    let mut df = chain();
    assert!(df.add_dep("input", "c").is_err());
    assert!(df.add_dep("a", "c").is_err());
    df.set_input("input", 3_i64).unwrap();
    df.topo_recompute().unwrap();
    assert_eq!(df.get("c").unwrap(), 70);
    assert_eq!(logged_names(&df), vec!["a", "b", "c"]);
    df.clear_log();
    df.topo_recompute_parallel().unwrap();
    assert_eq!(df.log().entries().len(), 0);
}

#[test]
fn duplicate_dependency_is_passed_twice() {
    let mut df: DeltaForge<i64, Fun> = DeltaForge::new();
    df.input("a");
    df.compute("twice", Box::new(|deps: &[Option<&i64>]| deps.len() as i64 * value_of(deps, 1)));
    df.add_dep("twice", "a").unwrap();
    df.add_dep("twice", "a").unwrap();
    df.set_input("a", 21_i64).unwrap();
    df.topo_recompute().unwrap();
    assert_eq!(df.get("twice").unwrap(), 42);
}

#[test]
fn name_reuse_refers_to_the_newest_node() {
    let mut df: DeltaForge<i64, Fun> = DeltaForge::new();
    df.input("a");
    df.compute("a", Box::new(|_: &[Option<&i64>]| 5_i64));
    assert_eq!(
        df.set_input("a", 1_i64),
        Err(EngineError::NotInput("a".to_string()))
    );
    df.topo_recompute().unwrap();
    assert_eq!(df.get("a").unwrap(), 5);
}

fn diamond() -> DeltaForge<i64, Fun> {
    let mut df: DeltaForge<i64, Fun> = DeltaForge::new();
    df.input("src");
    df.compute("left", Box::new(|deps: &[Option<&i64>]| value_of(deps, 0) + 1));
    df.compute("right", Box::new(|deps: &[Option<&i64>]| value_of(deps, 0) * 3));
    df.compute("join", Box::new(|deps: &[Option<&i64>]| value_of(deps, 0) * 100 + value_of(deps, 1)));
    df.add_dep("left", "src").unwrap();
    df.add_dep("right", "src").unwrap();
    df.add_dep("join", "left").unwrap();
    df.add_dep("join", "right").unwrap();
    df
}

#[test]
fn parallel_recompute_of_a_diamond() {
    let mut df = diamond();
    df.set_input("src", 2_i64).unwrap();
    df.topo_recompute_parallel().unwrap();
    assert_eq!(df.get("left").unwrap(), 3);
    assert_eq!(df.get("right").unwrap(), 6);
    assert_eq!(df.get("join").unwrap(), 306);
    let names = logged_names(&df);
    assert_eq!(names.len(), 3);
    assert_eq!(names[2], "join");
}

#[test]
fn parallel_and_sequential_agree_on_a_diamond() {
    let mut seq = diamond();
    let mut par = diamond();
    for (i, v) in [4_i64, 9, -2].iter().enumerate() {
        seq.set_input("src", *v).unwrap();
        par.set_input("src", *v).unwrap();
        seq.topo_recompute().unwrap();
        par.topo_recompute_parallel().unwrap();
        for name in ["left", "right", "join"] {
            assert_eq!(seq.get(name).unwrap(), par.get(name).unwrap(), "round {i}, node {name}");
        }
    }
    assert_eq!(seq.log().entries().len(), par.log().entries().len());
}

#[test]
fn recompute_of_an_empty_engine_does_nothing() {
    let mut df: DeltaForge<i64, Fun> = DeltaForge::default();
    df.topo_recompute().unwrap();
    df.topo_recompute_parallel().unwrap();
    assert!(df.log().entries().is_empty());
}

#[test]
fn input_with_a_dependency_stays_unrecomputed() {
    let mut df: DeltaForge<i64, Fun> = DeltaForge::new();
    df.input("x");
    df.input("y");
    df.add_dep("y", "x").unwrap();
    df.set_input("y", 7_i64).unwrap();
    df.set_input("x", 1_i64).unwrap();
    df.topo_recompute().unwrap();
    assert_eq!(df.log().entries().len(), 0);
    assert_eq!(df.get("y").unwrap(), 7);
}

#[test]
fn log_entries_record_recomputed_nodes() {
    let mut df = build_dag();
    df.topo_recompute().unwrap();
    let entries = df.log().entries();
    assert_eq!(entries.len(), 1);
    assert_eq!(entries[0].node, "sum");
    assert!(entries[0].recomputed);
}

#[test]
fn error_messages() {
    assert_eq!(
        EngineError::NodeNotFound("n".to_string()).message(),
        "node 'n' not found"
    );
    assert_eq!(
        EngineError::WouldCycle {
            dep: "d".to_string(),
            node: "n".to_string()
        }
        .message(),
        "adding dep 'd' → 'n' would create a cycle"
    );
    assert_eq!(
        EngineError::NotInput("s".to_string()).message(),
        "'s' is not an Input node"
    );
    assert_eq!(
        EngineError::NoValue("s".to_string()).message(),
        "'s' has no value (run topo_recompute first)"
    );
    assert_eq!(
        EngineError::CycleDetected.message(),
        "cycle detected during toposort"
    );
    assert_eq!(
        EngineError::MissingFunction("s".to_string()).message(),
        "Compute node 's' has no function"
    );
}

#[test]
fn node_kinds_compare() {
    assert_eq!(NodeKind::Input, NodeKind::Input);
    assert_ne!(NodeKind::Input, NodeKind::Compute);
}

#[test]
fn counts_follow_additions_and_refusals() {
    let mut df = build_dag();
    assert_eq!(df.node_count(), 3);
    assert_eq!(df.edge_count(), 2);
    assert!(df.add_dep("a", "sum").is_err());
    assert_eq!(df.edge_count(), 2);
    df.input("c");
    df.add_dep("sum", "c").unwrap();
    assert_eq!(df.node_count(), 4);
    assert_eq!(df.edge_count(), 3);
}

#[test]
fn dependency_along_existing_direction_is_accepted() {
    let mut df = diamond();
    // src already reaches join; a direct edge src -> join closes no cycle.
    df.add_dep("join", "src").unwrap();
    // left already reaches join, so left may not depend on join.
    assert_eq!(
        df.add_dep("left", "join"),
        Err(EngineError::WouldCycle {
            dep: "join".to_string(),
            node: "left".to_string()
        })
    );
    assert_eq!(df.edge_count(), 5);
}

#[test]
fn input_change_reaches_past_a_dirty_input() {
    let mut df: DeltaForge<i64, Fun> = DeltaForge::new();
    df.input("i");
    df.input("x");
    df.compute("y", Box::new(|deps: &[Option<&i64>]| value_of(deps, 0) + 1));
    df.add_dep("x", "i").unwrap();
    df.add_dep("y", "x").unwrap();
    df.set_input("i", 1_i64).unwrap();
    df.topo_recompute().unwrap();
    assert_eq!(logged_names(&df), vec!["y".to_string()]);
    df.clear_log();
    df.set_input("i", 2_i64).unwrap();
    df.topo_recompute().unwrap();
    assert_eq!(logged_names(&df), vec!["y".to_string()]);
    assert_eq!(df.get("y").unwrap(), 1);
}

#[test]
fn input_change_reaches_past_a_dirty_compute_node() {
    let mut df: DeltaForge<i64, Fun> = DeltaForge::new();
    df.input("a");
    df.compute(
        "c",
        Box::new(|deps: &[Option<&i64>]| deps.iter().map(|d| d.copied().unwrap_or(0)).sum::<i64>() * 10),
    );
    df.topo_recompute().unwrap();
    assert_eq!(df.get("c").unwrap(), 0);
    df.compute("b", Box::new(|deps: &[Option<&i64>]| value_of(deps, 0) + 1));
    df.add_dep("b", "a").unwrap();
    df.add_dep("c", "b").unwrap();
    df.clear_log();
    df.set_input("a", 4_i64).unwrap();
    df.topo_recompute().unwrap();
    assert_eq!(logged_names(&df), vec!["b".to_string(), "c".to_string()]);
    assert_eq!(df.get("b").unwrap(), 5);
    assert_eq!(df.get("c").unwrap(), 50);
}

#[test]
fn sequential_and_parallel_log_the_same_names() {
    let mut seq = diamond();
    let mut par = diamond();
    seq.set_input("src", 5_i64).unwrap();
    par.set_input("src", 5_i64).unwrap();
    seq.topo_recompute().unwrap();
    par.topo_recompute_parallel().unwrap();
    let mut a = logged_names(&seq);
    let mut b = logged_names(&par);
    a.sort();
    b.sort();
    assert_eq!(a, vec!["join".to_string(), "left".to_string(), "right".to_string()]);
    assert_eq!(a, b);
}

#[test]
fn incremental_and_from_scratch_agree() {
    let mut inc = diamond();
    inc.set_input("src", 1_i64).unwrap();
    inc.topo_recompute().unwrap();
    inc.set_input("src", 7_i64).unwrap();
    inc.topo_recompute().unwrap();
    let mut scratch = diamond();
    scratch.set_input("src", 1_i64).unwrap();
    scratch.set_input("src", 7_i64).unwrap();
    scratch.topo_recompute().unwrap();
    for name in ["src", "left", "right", "join"] {
        assert_eq!(inc.get(name).unwrap(), scratch.get(name).unwrap(), "node {name}");
    }
    assert_eq!(inc.get("join").unwrap(), 821);
}

#[test]
fn input_value_survives_other_calls() {
    let mut df = build_dag();
    df.set_input("a", 3_i64).unwrap();
    df.topo_recompute().unwrap();
    df.input("c");
    df.compute("twice", Box::new(|deps: &[Option<&i64>]| value_of(deps, 0) * 2));
    df.add_dep("twice", "a").unwrap();
    df.set_input("b", 4_i64).unwrap();
    df.topo_recompute_parallel().unwrap();
    assert_eq!(df.get("a").unwrap(), 3);
    assert_eq!(df.get("twice").unwrap(), 6);
}

#[test]
fn only_recomputation_appends_to_the_log() {
    let mut df = build_dag();
    df.set_input("a", 1_i64).unwrap();
    df.topo_recompute().unwrap();
    let first = logged_names(&df);
    assert_eq!(first, vec!["sum".to_string()]);
    df.input("c");
    df.set_input("c", 2_i64).unwrap();
    df.add_dep("sum", "c").unwrap();
    assert_eq!(logged_names(&df), first);
    df.set_input("b", 5_i64).unwrap();
    df.topo_recompute().unwrap();
    assert_eq!(logged_names(&df), vec!["sum".to_string(), "sum".to_string()]);
}

#[test]
fn log_holds_what_recomputations_appended_since_the_last_clear() {
    let mut df = build_dag();
    df.set_input("a", 1_i64).unwrap();
    df.topo_recompute().unwrap();
    df.clear_log();
    df.set_input("b", 2_i64).unwrap();
    df.topo_recompute_parallel().unwrap();
    df.compute("neg", Box::new(|deps: &[Option<&i64>]| -value_of(deps, 0)));
    df.add_dep("neg", "sum").unwrap();
    df.topo_recompute().unwrap();
    df.topo_recompute().unwrap();
    assert_eq!(logged_names(&df), vec!["sum".to_string(), "neg".to_string()]);
    assert_eq!(df.get("neg").unwrap(), -3);
    assert_eq!(df.get("a").unwrap(), 1);
}
