//! Operator tests on the standard three-variable test network:
//! `A -> B; C -|? B; $B: A; C -> A; B -> A; A -| A; $A: C | f(A, B)`.
//!
//! The symbolic encoding orders the parameter variables first: the four
//! rows of the unknown update function `f` of `A`, then the implicit
//! constant update `g` of `C`, followed by the state variables `A`, `B`,
//! `C`.  The unit colors are the parameter valuations admitted by the
//! regulation constraints: `B` activating and observable in `A`'s update,
//! `A` inhibiting and observable in it, and `C` observable in it.

use biodivine_lib_bdd::BddVariableSet;
use symbolic_scc::VariableId;
use symbolic_scc::async_graph::SymbolicAsyncGraph;

fn variable_set() -> BddVariableSet {
    BddVariableSet::new(&["f00", "f01", "f10", "f11", "g", "A", "B", "C"])
}

fn test_graph(vs: &BddVariableSet) -> SymbolicAsyncGraph {
    // update value of A: C | f(A, B), as a function table over f
    let update_a = vs
        .eval_expression_string(
            "C | ((!A & !B & f00) | (!A & B & f01) | (A & !B & f10) | (A & B & f11))",
        );
    let update_b = vs.eval_expression_string("A");
    let update_c = vs.eval_expression_string("g");
    // enabled predicate: applying the update changes the variable
    let enabled_a = update_a.xor(&vs.eval_expression_string("A"));
    let enabled_b = update_b.xor(&vs.eval_expression_string("B"));
    let enabled_c = update_c.xor(&vs.eval_expression_string("C"));
    // static constraints of the regulations on A's update:
    // B activating and observable, A inhibiting and observable,
    // C observable
    let unit = vs.eval_expression_string(
        "((f00 => f01) & (f10 => f11)) \
         & ((!f00 & f01) | (!f10 & f11)) \
         & ((f10 => f00) & (f11 => f01)) \
         & ((f00 & !f10) | (f01 & !f11)) \
         & !(f00 & f01 & f10 & f11)",
    );
    SymbolicAsyncGraph::new(5, vec![enabled_a, enabled_b, enabled_c], unit).unwrap()
}

#[test]
fn basic_graph_test() {
    let vs = variable_set();
    let stg = test_graph(&vs);
    let id_b = VariableId(1);
    let b_is_true = stg.fix_network_variable(id_b, true);
    let b_is_false = stg.fix_network_variable(id_b, false);

    assert_eq!(
        stg.var_can_pre(id_b, &b_is_true).as_bdd(),
        stg.var_post(id_b, &b_is_false).as_bdd()
    );
    assert_eq!(
        stg.var_can_post(id_b, &b_is_false).as_bdd(),
        stg.var_pre(id_b, &b_is_true).as_bdd()
    );
    // a vertex projection leaves the five parameter variables free, so
    // the raw satisfying count is scaled by 2^5
    assert_eq!(
        4.0,
        stg.can_pre(&b_is_true).vertices().as_bdd().cardinality() / 32.0
    );
    assert_eq!(
        4.0,
        stg.can_post(&b_is_false).vertices().as_bdd().cardinality() / 32.0
    );

    let some_color = stg.unit_colors().pick_singleton();
    let b_is_true_with_color = b_is_true.intersect_colors(&some_color);
    let b_is_false_with_color = b_is_false.intersect_colors(&some_color);
    assert_eq!(
        3.0,
        stg.can_pre(&b_is_true_with_color).vertices().as_bdd().cardinality() / 32.0
    );
    assert_eq!(
        4.0,
        stg.can_post(&b_is_false_with_color).vertices().as_bdd().cardinality() / 32.0
    );

    assert_ne!(
        stg.can_pre(&b_is_true).as_bdd(),
        stg.post(&b_is_false).as_bdd()
    );
    assert_ne!(
        stg.can_post(&b_is_false).as_bdd(),
        stg.pre(&b_is_true).as_bdd()
    );
}

#[test]
fn unit_is_split_by_fixing_one_variable() {
    let vs = variable_set();
    let stg = test_graph(&vs);
    let id_b = VariableId(1);
    let b_is_true = stg.fix_network_variable(id_b, true);
    let b_is_false = stg.fix_network_variable(id_b, false);
    let unit = stg.mk_unit_colored_vertices();
    assert_eq!(b_is_true.union(&b_is_false).as_bdd(), unit.as_bdd());
    assert!(b_is_true.intersect(&b_is_false).is_empty());
    assert!(b_is_true.minus(&b_is_true).is_empty());
    assert!(!unit.is_empty());
    assert!(b_is_true.is_subset(&unit));
    assert!(!unit.is_subset(&b_is_true));
    // four admissible colors: two function tables for A, a free constant
    // update for C
    assert_eq!(4.0, stg.unit_colors().as_bdd().cardinality() / 8.0);
}

#[test]
fn var_post_gives_exactly_the_fired_states() {
    let vs = variable_set();
    let stg = test_graph(&vs);
    let id_b = VariableId(1);
    let b_is_false = stg.fix_network_variable(id_b, false);
    // firing B from a state with B = 0 requires A = 1 and lands in B = 1
    let expected = stg
        .mk_unit_colored_vertices()
        .intersect(&stg.fix_network_variable(VariableId(0), true))
        .intersect(&stg.fix_network_variable(id_b, true));
    assert_eq!(stg.var_post(id_b, &b_is_false).as_bdd(), expected.as_bdd());
}

#[test]
fn var_pre_out_finds_outside_predecessors() {
    let vs = variable_set();
    let stg = test_graph(&vs);
    let id_b = VariableId(1);
    let b_is_true = stg.fix_network_variable(id_b, true);
    // predecessors of B = 1 via B lie at B = 0 with A = 1, all outside
    // the B = 1 set
    let expected = stg
        .mk_unit_colored_vertices()
        .intersect(&stg.fix_network_variable(VariableId(0), true))
        .intersect(&stg.fix_network_variable(id_b, false));
    assert_eq!(stg.var_pre_out(id_b, &b_is_true).as_bdd(), expected.as_bdd());
}

#[test]
fn picks_choose_single_witnesses() {
    let vs = variable_set();
    let stg = test_graph(&vs);
    let unit = stg.mk_unit_colored_vertices();
    let picked = unit.pick_vertex();
    // one vertex per color: the color set is unchanged, the total count
    // drops to one pair per color
    assert_eq!(picked.colors().as_bdd(), unit.colors().as_bdd());
    assert_eq!(4.0, picked.as_bdd().cardinality());
    let picked_colors = unit.pick_color();
    assert_eq!(
        picked_colors.vertices().as_bdd(),
        unit.vertices().as_bdd()
    );
    assert_eq!(8.0, picked_colors.as_bdd().cardinality());
    // a singleton pick is one (state, color) pair
    let single = unit.pick_singleton();
    assert_eq!(1.0, single.as_bdd().cardinality());
    assert!(single.is_subset(&unit));
    let empty = stg.mk_empty_vertices();
    assert!(empty.pick_singleton().is_empty());
    assert!(stg.mk_empty_colors().pick_singleton().is_empty());
}

#[test]
fn graph_exposes_its_variables() {
    let vs = variable_set();
    let stg = test_graph(&vs);
    assert_eq!(3, stg.num_vars());
    let vars = stg.variables();
    assert_eq!(3, vars.len());
    assert_eq!(VariableId(0), vars[0]);
    assert_eq!(VariableId(2), vars[2]);
    assert!(stg.mk_unit_colored_vertices().symbolic_size() >= 1);
}

#[test]
fn will_operators_keep_stuck_states() {
    // a single variable that can only switch on: the on state has no
    // outgoing transition, so it survives every "will" operator
    let vs = BddVariableSet::new(&["A"]);
    let enabled_a = vs.eval_expression_string("!A");
    let unit = vs.mk_true();
    let stg = SymbolicAsyncGraph::new(0, vec![enabled_a], unit).unwrap();
    let on = stg.fix_network_variable(VariableId(0), true);
    let whole = stg.mk_unit_colored_vertices();
    assert_eq!(stg.will_post_out(&on).as_bdd(), on.as_bdd());
    assert_eq!(stg.will_post_within(&on).as_bdd(), on.as_bdd());
    assert_eq!(stg.will_post_within(&whole).as_bdd(), whole.as_bdd());
    // the off state can fire into the on state
    assert_eq!(stg.can_post_within(&whole).as_bdd(), stg.fix_network_variable(VariableId(0), false).as_bdd());
    assert_eq!(stg.can_pre(&whole).as_bdd(), on.as_bdd());
}
