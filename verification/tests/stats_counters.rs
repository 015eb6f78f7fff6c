//! Tests of the diagnostic collector and the counting decorators.

use biodivine_lib_bdd::BddVariableSet;
use symbolic_scc::VariableId;
use symbolic_scc::async_graph::SymbolicAsyncGraph;
use symbolic_scc::stats::{StatGraphColoredVertices, StatSymbolicAsyncGraph, Stats};

fn stat_graph() -> StatSymbolicAsyncGraph {
    let vs = BddVariableSet::new(&["A", "B"]);
    let enabled_a = vs.eval_expression_string("B ^ A");
    let enabled_b = vs.eval_expression_string("!A ^ B");
    let graph = SymbolicAsyncGraph::new(0, vec![enabled_a, enabled_b], vs.mk_true()).unwrap();
    StatSymbolicAsyncGraph::new(graph)
}

#[test]
fn counters_record_each_operation() {
    let stg = stat_graph();
    let mut stats = Stats::default();
    let whole = stg.mk_unit_colored_vertices();
    let empty = stg.mk_empty_vertices();
    let u = whole.union(&empty, &mut stats);
    let i = u.intersect(&whole, &mut stats);
    let m = i.minus(&empty, &mut stats);
    let _p = m.pick_vertex(&mut stats);
    let post = stg.post(&whole, &mut stats);
    let _pre = stg.pre(&post, &mut stats);
    assert_eq!(1, stats.union_count);
    assert_eq!(1, stats.intersect_count);
    assert_eq!(1, stats.minus_count);
    assert_eq!(1, stats.pick_vertex_count);
    assert_eq!(1, stats.post_count);
    assert_eq!(1, stats.pre_count);
    // outside trim mode nothing is attributed to trimming
    assert_eq!(0, stats.total_trimming_steps());
}

#[test]
fn trim_mode_attributes_steps_to_trimming() {
    let stg = stat_graph();
    let mut stats = Stats::default();
    let whole = stg.mk_unit_colored_vertices();
    stats.toggle_trim_mode();
    assert!(stats.trim_mode);
    let p = stg.post(&whole, &mut stats);
    let _q = p.intersect(&whole, &mut stats);
    let _r = stg.pre(&whole, &mut stats);
    stats.toggle_trim_mode();
    assert!(!stats.trim_mode);
    let _s = stg.post(&whole, &mut stats);
    assert_eq!(1, stats.trim_post_count);
    assert_eq!(1, stats.trim_intersect_count);
    assert_eq!(1, stats.trim_pre_count);
    assert_eq!(2, stats.post_count);
    assert_eq!(3, stats.total_trimming_steps());
}

#[test]
fn iteration_and_size_tracking() {
    let mut stats = Stats::default();
    stats.inc_iterations();
    stats.inc_iterations();
    assert_eq!(2, stats.iterations);
    stats.update_bdd_size(10);
    stats.update_bdd_size(4);
    stats.update_bdd_size(7);
    assert_eq!(10, stats.max_bdd_size);
    assert_eq!(3, stats.total_bdds);
    assert_eq!(21, stats.total_bdd_size);
}

#[test]
fn decorated_sets_behave_like_their_content() {
    let stg = stat_graph();
    let mut stats = Stats::default();
    let whole = stg.mk_unit_colored_vertices();
    assert!(!whole.is_empty());
    assert!(stg.mk_empty_vertices().is_empty());
    // the decorated graph steps exactly as the plain one
    let on = StatGraphColoredVertices::new(
        stg.as_graph().fix_network_variable(VariableId(0), true),
    );
    let plain_post = stg.as_graph().post(on.as_colored_vertices());
    let decorated_post = stg.post(&on, &mut stats);
    assert_eq!(plain_post.as_bdd(), decorated_post.as_colored_vertices().as_bdd());
}
