//! Tests of trimming, the split structure, and the three decomposition
//! variants, on the standard three-variable test network and on small
//! hand-made graphs.

use biodivine_lib_bdd::BddVariableSet;
use symbolic_scc::async_graph::SymbolicAsyncGraph;
use symbolic_scc::decomposition::{Counter, ReachStrategy, bwd_closure, decomposition, find_sccs, skel_forward};
use symbolic_scc::trim::trim;

fn variable_set() -> BddVariableSet {
    BddVariableSet::new(&["f00", "f01", "f10", "f11", "g", "A", "B", "C"])
}

fn test_graph(vs: &BddVariableSet) -> SymbolicAsyncGraph {
    let update_a = vs
        .eval_expression_string(
            "C | ((!A & !B & f00) | (!A & B & f01) | (A & !B & f10) | (A & B & f11))",
        );
    let update_b = vs.eval_expression_string("A");
    let update_c = vs.eval_expression_string("g");
    let enabled_a = update_a.xor(&vs.eval_expression_string("A"));
    let enabled_b = update_b.xor(&vs.eval_expression_string("B"));
    let enabled_c = update_c.xor(&vs.eval_expression_string("C"));
    let unit = vs.eval_expression_string(
        "((f00 => f01) & (f10 => f11)) \
         & ((!f00 & f01) | (!f10 & f11)) \
         & ((f10 => f00) & (f11 => f01)) \
         & ((f00 & !f10) | (f01 & !f11)) \
         & !(f00 & f01 & f10 & f11)",
    );
    SymbolicAsyncGraph::new(5, vec![enabled_a, enabled_b, enabled_c], unit).unwrap()
}

/// A two-variable loop: the first variable follows the second, the
/// second negates the first, so the four states form one cycle and
/// nothing is trimmed away.
fn cycle_graph() -> SymbolicAsyncGraph {
    let vs = BddVariableSet::new(&["A", "B"]);
    let enabled_a = vs.eval_expression_string("B ^ A");
    let enabled_b = vs.eval_expression_string("!A ^ B");
    SymbolicAsyncGraph::new(0, vec![enabled_a, enabled_b], vs.mk_true()).unwrap()
}

/// A single variable that can only switch on: an acyclic graph.
fn acyclic_graph() -> SymbolicAsyncGraph {
    let vs = BddVariableSet::new(&["A"]);
    let enabled_a = vs.eval_expression_string("!A");
    SymbolicAsyncGraph::new(0, vec![enabled_a], vs.mk_true()).unwrap()
}

#[test]
fn trim_is_idempotent() {
    let vs = variable_set();
    let stg = test_graph(&vs);
    let trimmed = trim(&stg, stg.mk_unit_colored_vertices());
    let again = trim(&stg, trimmed.clone());
    assert_eq!(trimmed.as_bdd(), again.as_bdd());
    // every survivor keeps an in-set predecessor and successor
    let pred_within = stg.can_pre_within(&trimmed);
    let succ_within = stg.can_post_within(&trimmed);
    assert_eq!(pred_within.as_bdd(), trimmed.as_bdd());
    assert_eq!(succ_within.as_bdd(), trimmed.as_bdd());
}

#[test]
fn trim_keeps_a_full_cycle() {
    let stg = cycle_graph();
    let whole = stg.mk_unit_colored_vertices();
    let trimmed = trim(&stg, whole.clone());
    assert_eq!(trimmed.as_bdd(), whole.as_bdd());
}

#[test]
fn trim_of_acyclic_space_is_empty() {
    let stg = acyclic_graph();
    let trimmed = trim(&stg, stg.mk_unit_colored_vertices());
    assert!(trimmed.is_empty());
    // and the search finds no components at all
    assert_eq!(0, find_sccs(&stg));
    assert_eq!(0, decomposition(&stg, ReachStrategy::Lockstep));
    assert_eq!(0, decomposition(&stg, ReachStrategy::LockstepSaturation));
}

#[test]
fn split_partitions_the_trimmed_universe() {
    let vs = variable_set();
    let stg = test_graph(&vs);
    let universe = trim(&stg, stg.mk_unit_colored_vertices());
    assert!(!universe.is_empty());
    let pivot = universe.pick_vertex();
    let (fw, _spine) = skel_forward(&stg, &universe, &pivot);
    let scc = bwd_closure(&stg, &fw, &pivot);
    let outside_forward = universe.minus(&fw);
    let forward_minus_scc = fw.minus(&scc);
    // the three parts cover the trimmed universe exactly
    let union = outside_forward.union(&forward_minus_scc).union(&scc);
    assert_eq!(union.as_bdd(), universe.as_bdd());
    // and are pairwise disjoint
    assert!(outside_forward.intersect(&forward_minus_scc).is_empty());
    assert!(outside_forward.intersect(&scc).is_empty());
    assert!(forward_minus_scc.intersect(&scc).is_empty());
    // both sub-universes are strict subsets of the popped universe
    assert!(outside_forward.is_subset(&universe));
    assert!(forward_minus_scc.is_subset(&universe));
    assert!(!universe.is_subset(&outside_forward));
    assert!(!universe.is_subset(&forward_minus_scc));
}

#[test]
fn variant_counts_agree() {
    let vs = variable_set();
    let stg = test_graph(&vs);
    let linear = find_sccs(&stg);
    let lockstep = decomposition(&stg, ReachStrategy::Lockstep);
    let saturated = decomposition(&stg, ReachStrategy::LockstepSaturation);
    assert_eq!(linear, lockstep);
    assert_eq!(lockstep, saturated);
    // the two-variable loop is one non-trivial component
    let cycle = cycle_graph();
    assert_eq!(1, find_sccs(&cycle));
    assert_eq!(1, decomposition(&cycle, ReachStrategy::Lockstep));
    assert_eq!(1, decomposition(&cycle, ReachStrategy::LockstepSaturation));
}

#[test]
fn counter_counts_pushes() {
    let vs = variable_set();
    let stg = test_graph(&vs);
    let mut counter = Counter::new(&stg);
    assert_eq!(0, counter.len());
    counter.push(&stg.unit_colors());
    counter.push(&stg.unit_colors());
    counter.push(&stg.mk_empty_colors());
    assert_eq!(3, counter.len());
}
