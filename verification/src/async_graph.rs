//! The symbolic asynchronous transition graph and its per-variable and
//! whole-graph operators.
//!
//! The graph owns, per network variable, one "enabled" predicate: a BDD
//! over state and parameter variables that holds exactly where firing that
//! variable's asynchronous update would change its value.  Firing flips the
//! variable's state bit, so every operator below is one or two fused BDD
//! operations away from its mathematical definition in `semantics`.

use vstd::prelude::*;

verus! {

use biodivine_lib_bdd::Bdd;
use crate::VariableId;
use crate::bdd_ops::{
    agrees_outside,
    bdd_sat,
    bdd_nvars,
    vals_ok,
    bdd_mk_false,
    bdd_mk_literal,
    bdd_num_vars,
    bdd_and,
    bdd_and_not,
    bdd_is_false,
    bdd_exists,
    bdd_clone,
    bdd_and_flip_output,
    bdd_and_flip_right,
    bdd_and_not_flip_right,
    bdd_flip_left_and_and_not,
    flip_at,
};
use crate::colored_sets::{SymbolicContext, GraphColoredVertices, GraphColors};
use crate::valuations::{
    color_eq,
    state_closed,
    lemma_index_range_contains,
    lemma_agrees_outside_states,
    range_vec,
};
use crate::semantics::{
    GraphSem,
    step_via,
    step,
    step_upto,
    lemma_flip_involution,
    lemma_step_upto_full,
    var_post_sem,
    var_pre_sem,
    var_pre_out_sem,
    var_can_post_sem,
    var_can_pre_sem,
    var_can_post_within_sem,
    var_can_post_out_sem,
    var_can_pre_within_sem,
    var_can_pre_out_sem,
    post_sem,
    pre_sem,
    can_post_sem,
    can_pre_sem,
    can_post_within_sem,
    can_post_out_sem,
    can_pre_within_sem,
    can_pre_out_sem,
    will_post_within_sem,
    will_post_out_sem,
    will_pre_within_sem,
    will_pre_out_sem,
};

/// A parametrized asynchronous Boolean network, encoded symbolically: one
/// enabled predicate per network variable, and the unit set of admissible
/// (state, color) pairs.
pub struct SymbolicAsyncGraph {
    pub(crate) context: SymbolicContext,
    pub(crate) update_functions: Vec<Bdd>,
    pub(crate) unit_bdd: Bdd,
}

impl View for SymbolicAsyncGraph {
    type V = GraphSem;

    closed spec fn view(&self) -> GraphSem {
        GraphSem {
            p: self.context.p_var_count as nat,
            s: self.update_functions@.len(),
            enabled: Seq::new(
                self.update_functions@.len(),
                |i: int| bdd_sat(self.update_functions@[i]),
            ),
            unit: bdd_sat(self.unit_bdd),
        }
    }
}

impl SymbolicAsyncGraph {
    pub closed spec fn wf(&self) -> bool {
        &&& self.context.wf()
        &&& self.update_functions@.len() == self.context.s_var_count
        &&& forall|i: int|
            0 <= i < self.update_functions@.len() ==> bdd_nvars(
                #[trigger] self.update_functions@[i],
            ) == self.context.total_spec() && vals_ok(
                bdd_sat(self.update_functions@[i]),
                self.context.total_spec(),
            )
        &&& bdd_nvars(self.unit_bdd) == self.context.total_spec()
        &&& vals_ok(bdd_sat(self.unit_bdd), self.context.total_spec())
        &&& state_closed(
            bdd_sat(self.unit_bdd),
            self.context.p_var_count as nat,
            self.context.total_spec(),
        )
    }

    /// A well-formed graph has a well-formed model.
    pub proof fn lemma_wf_sem(&self)
        requires
            self.wf(),
        ensures
            self@.wf(),
            self@.n() <= u16::MAX,
    {
    }

    /// Construct a graph from its parameter-variable count, one enabled
    /// predicate per network variable, and the unit set of (state, color)
    /// pairs.  Returns `None` exactly when the parts do not fit together: a
    /// variable count beyond what the BDD library accepts, an enabled
    /// predicate or unit BDD over the wrong variable count, or a unit BDD
    /// that constrains state variables.
    pub fn new(p_var_count: u16, update_functions: Vec<Bdd>, unit_bdd: Bdd) -> (r: Option<
        SymbolicAsyncGraph,
    >)
        requires
            forall|i: int|
                0 <= i < update_functions@.len() ==> vals_ok(
                    bdd_sat(#[trigger] update_functions@[i]),
                    bdd_nvars(update_functions@[i]),
                ),
            vals_ok(bdd_sat(unit_bdd), bdd_nvars(unit_bdd)),
        ensures
            r matches Some(g) ==> {
                &&& g.wf()
                &&& g@.p == p_var_count
                &&& g@.s == update_functions@.len()
                &&& g@.enabled =~= Seq::new(
                    update_functions@.len(),
                    |i: int| bdd_sat(update_functions@[i]),
                )
                &&& g@.unit == bdd_sat(unit_bdd)
            },
            r is None <==> {
                ||| p_var_count + update_functions@.len() >= 0xFFFE
                ||| exists|i: int|
                    0 <= i < update_functions@.len() && bdd_nvars(
                        #[trigger] update_functions@[i],
                    ) != p_var_count + update_functions@.len()
                ||| bdd_nvars(unit_bdd) != p_var_count + update_functions@.len()
                ||| !state_closed(
                    bdd_sat(unit_bdd),
                    p_var_count as nat,
                    (p_var_count + update_functions@.len()) as nat,
                )
            },
    {
        let s_len = update_functions.len();
        if s_len >= 0xFFFE {
            return None;
        }
        let s_count = s_len as u16;
        if p_var_count >= 0xFFFE - s_count {
            return None;
        }
        let total = p_var_count + s_count;
        let mut i: usize = 0;
        while i < update_functions.len()
            invariant
                update_functions@.len() == s_len,
                0 <= i <= s_len,
                total == p_var_count + s_len,
                forall|j: int|
                    0 <= j < i ==> bdd_nvars(#[trigger] update_functions@[j]) == total,
            decreases s_len - i,
        {
            if bdd_num_vars(&update_functions[i]) != total {
                proof {
                    assert(bdd_nvars(update_functions@[i as int]) != p_var_count
                        + update_functions@.len());
                }
                return None;
            }
            i = i + 1;
        }
        if bdd_num_vars(&unit_bdd) != total {
            return None;
        }
        let svars = range_vec(p_var_count, total);
        proof {
            lemma_index_range_contains(svars@, p_var_count, total);
        }
        let projected = bdd_exists(&unit_bdd, &svars);
        let diff = bdd_and_not(&projected, &unit_bdd);
        if !bdd_is_false(&diff) {
            proof {
                // a pair in the projection but not in the unit set is a
                // state change that leaves the unit set: it refutes state
                // closure
                let u = bdd_sat(unit_bdd);
                let n = total as nat;
                let p = p_var_count as nat;
                assert(exists|v: Seq<bool>| #[trigger] bdd_sat(diff).contains(v)) by {
                    if forall|v: Seq<bool>| !#[trigger] bdd_sat(diff).contains(v) {
                        assert(bdd_sat(diff) =~= Set::<Seq<bool>>::empty());
                    }
                }
                let v = choose|v: Seq<bool>| #[trigger] bdd_sat(diff).contains(v);
                assert(bdd_sat(projected).contains(v) && !u.contains(v));
                let w = choose|w: Seq<bool>| #[trigger] u.contains(w) && agrees_outside(v, w, svars@);
                lemma_agrees_outside_states(v, w, p_var_count, s_count, svars@);
                assert(color_eq(w, v, p));
                assert(u.contains(w) && v.len() == n && color_eq(w, v, p) && !u.contains(v));
                assert(!state_closed(u, p, n)) by {
                    if state_closed(u, p, n) {
                        assert(u.contains(v));
                    }
                }
            }
            return None;
        }
        proof {
            let u = bdd_sat(unit_bdd);
            let n = total as nat;
            let p = p_var_count as nat;
            assert forall|v: Seq<bool>, w: Seq<bool>|
                #[trigger] u.contains(v) && w.len() == n && #[trigger] color_eq(
                    v,
                    w,
                    p,
                ) implies u.contains(w) by {
                lemma_agrees_outside_states(w, v, p_var_count, s_count, svars@);
                assert(bdd_sat(projected).contains(w));
                assert(!bdd_sat(diff).contains(w));
            }
        }
        let context = SymbolicContext { p_var_count, s_var_count: s_count };
        Some(SymbolicAsyncGraph { context, update_functions, unit_bdd })
    }

    /// Number of network variables.
    pub fn num_vars(&self) -> (r: u16)
        requires
            self.wf(),
        ensures
            r == self@.s,
    {
        self.context.s_var_count
    }

    /// The ordered, dense list of network variable identifiers.
    pub fn variables(&self) -> (r: Vec<VariableId>)
        requires
            self.wf(),
        ensures
            r@.len() == self@.s,
            forall|i: int| 0 <= i < r@.len() ==> (#[trigger] r@[i]).0 == i,
    {
        let mut r: Vec<VariableId> = Vec::new();
        let mut i: u16 = 0;
        let count = self.context.s_var_count;
        while i < count
            invariant
                0 <= i <= count,
                r@.len() == i,
                forall|j: int| 0 <= j < r@.len() ==> (#[trigger] r@[j]).0 == j,
            decreases count - i,
        {
            r.push(VariableId(i));
            i = i + 1;
        }
        r
    }

    /// The empty colored vertex set of this graph's context.
    pub fn mk_empty_vertices(&self) -> (r: GraphColoredVertices)
        requires
            self.wf(),
        ensures
            r.wf(),
            r.same_layout(self@.p, self@.s),
            r@ == Set::<Seq<bool>>::empty(),
    {
        let empty = bdd_mk_false(self.context.total());
        GraphColoredVertices::new(empty, &self.context)
    }

    /// Every admissible (state, color) pair of this graph.
    pub fn mk_unit_colored_vertices(&self) -> (r: GraphColoredVertices)
        requires
            self.wf(),
        ensures
            r.wf(),
            r.same_layout(self@.p, self@.s),
            r@ == self@.unit,
    {
        GraphColoredVertices::new(bdd_clone(&self.unit_bdd), &self.context)
    }

    /// The empty color set of this graph's context.
    pub fn mk_empty_colors(&self) -> (r: GraphColors)
        requires
            self.wf(),
        ensures
            r.wf(),
            r.p() == self@.p && r.s() == self@.s,
            r@ == Set::<Seq<bool>>::empty(),
    {
        let empty = bdd_mk_false(self.context.total());
        GraphColors::new(empty, &self.context)
    }

    /// Every admissible color of this graph.
    pub fn unit_colors(&self) -> (r: GraphColors)
        requires
            self.wf(),
        ensures
            r.wf(),
            r.p() == self@.p && r.s() == self@.s,
            r@ == self@.unit,
    {
        GraphColors::new(bdd_clone(&self.unit_bdd), &self.context)
    }

    /// The admissible pairs whose state assigns `value` to the given
    /// network variable.
    pub fn fix_network_variable(&self, variable: VariableId, value: bool) -> (r:
        GraphColoredVertices)
        requires
            self.wf(),
            variable.0 < self@.s,
        ensures
            r.wf(),
            r.same_layout(self@.p, self@.s),
            r@ == self@.unit.intersect(
                Set::new(
                    |v: Seq<bool>| v.len() == self@.n() && v[self@.sv(variable.0 as int)],
                ),
            ) || (!value && r@ == self@.unit.intersect(
                Set::new(
                    |v: Seq<bool>| v.len() == self@.n() && !v[self@.sv(variable.0 as int)],
                ),
            )),
            forall|v: Seq<bool>| #[trigger] r@.contains(v) <==> self@.unit.contains(v) && v[
                self@.sv(variable.0 as int)
            ] == value,
    {
        let idx = self.context.p_var_count + variable.0;
        let lit = bdd_mk_literal(self.context.total(), idx, value);
        let out = bdd_and(&self.unit_bdd, &lit);
        proof {
            assert forall|v: Seq<bool>| #[trigger] bdd_sat(out).contains(v) <==> self@.unit
                .contains(v) && v[self@.sv(variable.0 as int)] == value by {
                if self@.unit.contains(v) {
                    assert(v.len() == self@.n());
                }
            }
            if value {
                assert(bdd_sat(out) =~= self@.unit.intersect(
                    Set::new(
                        |v: Seq<bool>| v.len() == self@.n() && v[self@.sv(variable.0 as int)],
                    ),
                ));
            } else {
                assert(bdd_sat(out) =~= self@.unit.intersect(
                    Set::new(
                        |v: Seq<bool>| v.len() == self@.n() && !v[self@.sv(variable.0 as int)],
                    ),
                ));
            }
        }
        GraphColoredVertices::new(out, &self.context)
    }

    /// Successors of `initial` reachable by firing `variable`: intersect
    /// with the enabled predicate, then flip the state bit.
    pub fn var_post(&self, variable: VariableId, initial: &GraphColoredVertices) -> (r:
        GraphColoredVertices)
        requires
            self.wf(),
            initial.wf(),
            initial.same_layout(self@.p, self@.s),
            variable.0 < self@.s,
        ensures
            r.wf(),
            r.same_layout(self@.p, self@.s),
            r@ == var_post_sem(self@, variable.0 as int, initial@),
    {
        proof {
            initial.lemma_wf_props();
        }
        let idx = self.context.p_var_count + variable.0;
        let out = bdd_and_flip_output(
            initial.as_bdd(),
            &self.update_functions[variable.0 as usize],
            idx,
        );
        let ghost i = variable.0 as int;
        let ghost sem = var_post_sem(self@, i, initial@);
        proof {
            assert forall|v: Seq<bool>| #[trigger] bdd_sat(out).contains(v) <==> sem.contains(
                v,
            ) by {
                if bdd_sat(out).contains(v) {
                    let x = flip_at(v, self@.sv(i));
                    lemma_flip_involution(v, self@.sv(i));
                    assert(initial@.contains(x) && step_via(self@, i, x, v));
                }
                if sem.contains(v) {
                    let x = choose|x: Seq<bool>|
                        #[trigger] initial@.contains(x) && step_via(self@, i, x, v);
                    assert(self@.enabled[i].contains(x));
                    lemma_flip_involution(x, self@.sv(i));
                    assert(flip_at(v, self@.sv(i)) == x);
                }
            }
            assert(bdd_sat(out) =~= sem);
        }
        GraphColoredVertices::new(out, &self.context)
    }

    /// The subset of `set` that can fire `variable`.
    pub fn var_can_post(&self, variable: VariableId, set: &GraphColoredVertices) -> (r:
        GraphColoredVertices)
        requires
            self.wf(),
            set.wf(),
            set.same_layout(self@.p, self@.s),
            variable.0 < self@.s,
        ensures
            r.wf(),
            r.same_layout(self@.p, self@.s),
            r@ == var_can_post_sem(self@, variable.0 as int, set@),
    {
        proof {
            set.lemma_wf_props();
        }
        let out = bdd_and(set.as_bdd(), &self.update_functions[variable.0 as usize]);
        let ghost i = variable.0 as int;
        let ghost sem = var_can_post_sem(self@, i, set@);
        proof {
            assert forall|v: Seq<bool>| #[trigger] bdd_sat(out).contains(v) <==> sem.contains(
                v,
            ) by {
                if bdd_sat(out).contains(v) {
                    assert(step_via(self@, i, v, flip_at(v, self@.sv(i))));
                }
                if sem.contains(v) {
                    let y = choose|y: Seq<bool>| #[trigger] step_via(self@, i, v, y);
                    assert(self@.enabled[i].contains(v));
                }
            }
            assert(bdd_sat(out) =~= sem);
        }
        GraphColoredVertices::new(out, &self.context)
    }

    /// Predecessors of `initial` via `variable`: flip the state bit, then
    /// intersect with the enabled predicate.
    pub fn var_pre(&self, variable: VariableId, initial: &GraphColoredVertices) -> (r:
        GraphColoredVertices)
        requires
            self.wf(),
            initial.wf(),
            initial.same_layout(self@.p, self@.s),
            variable.0 < self@.s,
        ensures
            r.wf(),
            r.same_layout(self@.p, self@.s),
            r@ == var_pre_sem(self@, variable.0 as int, initial@),
    {
        proof {
            initial.lemma_wf_props();
        }
        let idx = self.context.p_var_count + variable.0;
        let out = bdd_and_flip_right(
            &self.update_functions[variable.0 as usize],
            initial.as_bdd(),
            idx,
        );
        let ghost i = variable.0 as int;
        let ghost sem = var_pre_sem(self@, i, initial@);
        proof {
            assert forall|v: Seq<bool>| #[trigger] bdd_sat(out).contains(v) <==> sem.contains(
                v,
            ) by {
                if bdd_sat(out).contains(v) {
                    assert(initial@.contains(flip_at(v, self@.sv(i))) && step_via(
                        self@,
                        i,
                        v,
                        flip_at(v, self@.sv(i)),
                    ));
                }
                if sem.contains(v) {
                    let y = choose|y: Seq<bool>|
                        #[trigger] initial@.contains(y) && step_via(self@, i, v, y);
                    assert(self@.enabled[i].contains(v));
                }
            }
            assert(bdd_sat(out) =~= sem);
        }
        GraphColoredVertices::new(out, &self.context)
    }

    /// Predecessors of `initial` via `variable` that lie outside `initial`.
    pub fn var_pre_out(&self, variable: VariableId, initial: &GraphColoredVertices) -> (r:
        GraphColoredVertices)
        requires
            self.wf(),
            initial.wf(),
            initial.same_layout(self@.p, self@.s),
            variable.0 < self@.s,
        ensures
            r.wf(),
            r.same_layout(self@.p, self@.s),
            r@ == var_pre_out_sem(self@, variable.0 as int, initial@),
    {
        proof {
            initial.lemma_wf_props();
        }
        let idx = self.context.p_var_count + variable.0;
        let out = bdd_flip_left_and_and_not(
            initial.as_bdd(),
            &self.update_functions[variable.0 as usize],
            initial.as_bdd(),
            idx,
        );
        let ghost i = variable.0 as int;
        let ghost sem = var_pre_out_sem(self@, i, initial@);
        proof {
            assert forall|v: Seq<bool>| #[trigger] bdd_sat(out).contains(v) <==> sem.contains(
                v,
            ) by {
                if bdd_sat(out).contains(v) {
                    assert(initial@.contains(flip_at(v, self@.sv(i))) && step_via(
                        self@,
                        i,
                        v,
                        flip_at(v, self@.sv(i)),
                    ));
                }
                if sem.contains(v) {
                    let y = choose|y: Seq<bool>|
                        #[trigger] initial@.contains(y) && step_via(self@, i, v, y);
                    assert(self@.enabled[i].contains(v));
                }
            }
            assert(bdd_sat(out) =~= sem);
        }
        GraphColoredVertices::new(out, &self.context)
    }

    /// The subset of `set` with a predecessor via `variable`.
    pub fn var_can_pre(&self, variable: VariableId, set: &GraphColoredVertices) -> (r:
        GraphColoredVertices)
        requires
            self.wf(),
            set.wf(),
            set.same_layout(self@.p, self@.s),
            variable.0 < self@.s,
        ensures
            r.wf(),
            r.same_layout(self@.p, self@.s),
            r@ == var_can_pre_sem(self@, variable.0 as int, set@),
    {
        proof {
            set.lemma_wf_props();
        }
        let idx = self.context.p_var_count + variable.0;
        let out = bdd_and_flip_right(
            set.as_bdd(),
            &self.update_functions[variable.0 as usize],
            idx,
        );
        let ghost i = variable.0 as int;
        let ghost sem = var_can_pre_sem(self@, i, set@);
        proof {
            assert forall|v: Seq<bool>| #[trigger] bdd_sat(out).contains(v) <==> sem.contains(
                v,
            ) by {
                if bdd_sat(out).contains(v) {
                    let w = flip_at(v, self@.sv(i));
                    lemma_flip_involution(v, self@.sv(i));
                    assert(step_via(self@, i, w, v));
                }
                if sem.contains(v) {
                    let w = choose|w: Seq<bool>| #[trigger] step_via(self@, i, w, v);
                    assert(self@.enabled[i].contains(w));
                    lemma_flip_involution(w, self@.sv(i));
                    assert(flip_at(v, self@.sv(i)) == w);
                }
            }
            assert(bdd_sat(out) =~= sem);
        }
        GraphColoredVertices::new(out, &self.context)
    }

    /// The subset of `set` that can fire `variable` landing inside `set`.
    pub fn var_can_post_within(&self, variable: VariableId, set: &GraphColoredVertices) -> (r:
        GraphColoredVertices)
        requires
            self.wf(),
            set.wf(),
            set.same_layout(self@.p, self@.s),
            variable.0 < self@.s,
        ensures
            r.wf(),
            r.same_layout(self@.p, self@.s),
            r@ == var_can_post_within_sem(self@, variable.0 as int, set@),
    {
        proof {
            set.lemma_wf_props();
        }
        let idx = self.context.p_var_count + variable.0;
        let has_dual_within_set = bdd_and_flip_right(set.as_bdd(), set.as_bdd(), idx);
        let out = bdd_and(&has_dual_within_set, &self.update_functions[variable.0 as usize]);
        let ghost i = variable.0 as int;
        let ghost sem = var_can_post_within_sem(self@, i, set@);
        proof {
            assert forall|v: Seq<bool>| #[trigger] bdd_sat(out).contains(v) <==> sem.contains(
                v,
            ) by {
                if bdd_sat(out).contains(v) {
                    assert(set@.contains(flip_at(v, self@.sv(i))) && step_via(
                        self@,
                        i,
                        v,
                        flip_at(v, self@.sv(i)),
                    ));
                }
                if sem.contains(v) {
                    let y = choose|y: Seq<bool>|
                        #[trigger] set@.contains(y) && step_via(self@, i, v, y);
                    assert(self@.enabled[i].contains(v));
                }
            }
            assert(bdd_sat(out) =~= sem);
        }
        GraphColoredVertices::new(out, &self.context)
    }

    /// The subset of `set` that can fire `variable` landing outside `set`.
    pub fn var_can_post_out(&self, variable: VariableId, set: &GraphColoredVertices) -> (r:
        GraphColoredVertices)
        requires
            self.wf(),
            set.wf(),
            set.same_layout(self@.p, self@.s),
            variable.0 < self@.s,
        ensures
            r.wf(),
            r.same_layout(self@.p, self@.s),
            r@ == var_can_post_out_sem(self@, variable.0 as int, set@),
    {
        proof {
            set.lemma_wf_props();
        }
        let idx = self.context.p_var_count + variable.0;
        let has_no_dual_within_set = bdd_and_not_flip_right(set.as_bdd(), set.as_bdd(), idx);
        let out = bdd_and(&has_no_dual_within_set, &self.update_functions[variable.0 as usize]);
        let ghost i = variable.0 as int;
        let ghost sem = var_can_post_out_sem(self@, i, set@);
        proof {
            assert forall|v: Seq<bool>| #[trigger] bdd_sat(out).contains(v) <==> sem.contains(
                v,
            ) by {
                if bdd_sat(out).contains(v) {
                    assert(!set@.contains(flip_at(v, self@.sv(i))) && step_via(
                        self@,
                        i,
                        v,
                        flip_at(v, self@.sv(i)),
                    ));
                }
                if sem.contains(v) {
                    let y = choose|y: Seq<bool>|
                        !#[trigger] set@.contains(y) && step_via(self@, i, v, y);
                    assert(self@.enabled[i].contains(v));
                }
            }
            assert(bdd_sat(out) =~= sem);
        }
        GraphColoredVertices::new(out, &self.context)
    }

    /// The subset of `set` with a predecessor via `variable` inside `set`.
    pub fn var_can_pre_within(&self, variable: VariableId, set: &GraphColoredVertices) -> (r:
        GraphColoredVertices)
        requires
            self.wf(),
            set.wf(),
            set.same_layout(self@.p, self@.s),
            variable.0 < self@.s,
        ensures
            r.wf(),
            r.same_layout(self@.p, self@.s),
            r@ == var_can_pre_within_sem(self@, variable.0 as int, set@),
    {
        proof {
            set.lemma_wf_props();
        }
        let idx = self.context.p_var_count + variable.0;
        let has_dual_within_set = bdd_and_flip_right(set.as_bdd(), set.as_bdd(), idx);
        let out = bdd_and_flip_right(
            &has_dual_within_set,
            &self.update_functions[variable.0 as usize],
            idx,
        );
        let ghost i = variable.0 as int;
        let ghost sem = var_can_pre_within_sem(self@, i, set@);
        proof {
            assert forall|v: Seq<bool>| #[trigger] bdd_sat(out).contains(v) <==> sem.contains(
                v,
            ) by {
                if bdd_sat(out).contains(v) {
                    let w = flip_at(v, self@.sv(i));
                    lemma_flip_involution(v, self@.sv(i));
                    assert(set@.contains(w) && step_via(self@, i, w, v));
                }
                if sem.contains(v) {
                    let w = choose|w: Seq<bool>|
                        #[trigger] set@.contains(w) && step_via(self@, i, w, v);
                    assert(self@.enabled[i].contains(w));
                    lemma_flip_involution(w, self@.sv(i));
                    assert(flip_at(v, self@.sv(i)) == w);
                }
            }
            assert(bdd_sat(out) =~= sem);
        }
        GraphColoredVertices::new(out, &self.context)
    }

    /// The subset of `set` with a predecessor via `variable` outside `set`.
    pub fn var_can_pre_out(&self, variable: VariableId, set: &GraphColoredVertices) -> (r:
        GraphColoredVertices)
        requires
            self.wf(),
            set.wf(),
            set.same_layout(self@.p, self@.s),
            variable.0 < self@.s,
        ensures
            r.wf(),
            r.same_layout(self@.p, self@.s),
            r@ == var_can_pre_out_sem(self@, variable.0 as int, set@),
    {
        proof {
            set.lemma_wf_props();
        }
        let idx = self.context.p_var_count + variable.0;
        let has_no_dual_within_set = bdd_and_not_flip_right(set.as_bdd(), set.as_bdd(), idx);
        let out = bdd_and_flip_right(
            &has_no_dual_within_set,
            &self.update_functions[variable.0 as usize],
            idx,
        );
        let ghost i = variable.0 as int;
        let ghost sem = var_can_pre_out_sem(self@, i, set@);
        proof {
            assert forall|v: Seq<bool>| #[trigger] bdd_sat(out).contains(v) <==> sem.contains(
                v,
            ) by {
                if bdd_sat(out).contains(v) {
                    let w = flip_at(v, self@.sv(i));
                    lemma_flip_involution(v, self@.sv(i));
                    assert(!set@.contains(w) && step_via(self@, i, w, v));
                }
                if sem.contains(v) {
                    let w = choose|w: Seq<bool>|
                        !#[trigger] set@.contains(w) && step_via(self@, i, w, v);
                    assert(self@.enabled[i].contains(w));
                    lemma_flip_involution(w, self@.sv(i));
                    assert(flip_at(v, self@.sv(i)) == w);
                }
            }
            assert(bdd_sat(out) =~= sem);
        }
        GraphColoredVertices::new(out, &self.context)
    }

    /// Successors of `initial` by firing any network variable.
    pub fn post(&self, initial: &GraphColoredVertices) -> (r: GraphColoredVertices)
        requires
            self.wf(),
            initial.wf(),
            initial.same_layout(self@.p, self@.s),
        ensures
            r.wf(),
            r.same_layout(self@.p, self@.s),
            r@ == post_sem(self@, initial@),
    {
        let ghost g = self@;
        let mut acc = self.mk_empty_vertices();
        let mut i: u16 = 0;
        let count = self.context.s_var_count;
        while i < count
            invariant
                self.wf(),
                initial.wf(),
                initial.same_layout(g.p, g.s),
                g == self@,
                count == g.s,
                acc.wf(),
                acc.same_layout(g.p, g.s),
                0 <= i <= count,
                forall|v: Seq<bool>| #[trigger] acc@.contains(v) <==> exists|x: Seq<bool>|
                    #[trigger] initial@.contains(x) && step_upto(g, i as int, x, v),
            decreases count - i,
        {
            let stepped = self.var_post(VariableId(i), initial);
            let next = acc.union(&stepped);
            proof {
                let k = i as int;
                assert forall|v: Seq<bool>| #[trigger] next@.contains(v) implies exists|
                    x: Seq<bool>,
                |
                    #[trigger] initial@.contains(x) && step_upto(g, k + 1, x, v) by {
                    if acc@.contains(v) {
                        let x = choose|x: Seq<bool>|
                            #[trigger] initial@.contains(x) && step_upto(g, k, x, v);
                        let j = choose|j: int| j < k && #[trigger] step_via(g, j, x, v);
                        assert(j < k + 1 && step_via(g, j, x, v));
                        assert(initial@.contains(x) && step_upto(g, k + 1, x, v));
                    } else {
                        assert(stepped@.contains(v));
                        let x = choose|x: Seq<bool>|
                            #[trigger] initial@.contains(x) && step_via(g, k, x, v);
                        assert(k < k + 1 && step_via(g, k, x, v));
                        assert(initial@.contains(x) && step_upto(g, k + 1, x, v));
                    }
                }
                assert forall|v: Seq<bool>| (exists|x: Seq<bool>|
                    #[trigger] initial@.contains(x) && step_upto(g, k + 1, x, v)) implies #[trigger] next@
                    .contains(v) by {
                    let x = choose|x: Seq<bool>|
                        #[trigger] initial@.contains(x) && step_upto(g, k + 1, x, v);
                    let j = choose|j: int| j < k + 1 && #[trigger] step_via(g, j, x, v);
                    if j < k {
                        assert(initial@.contains(x) && step_upto(g, k, x, v));
                        assert(acc@.contains(v));
                    } else {
                        assert(step_via(g, k, x, v));
                        assert(stepped@.contains(v));
                    }
                }
            }
            acc = next;
            i = i + 1;
        }
        proof {
            self.lemma_wf_sem();
            assert forall|v: Seq<bool>| #[trigger] acc@.contains(v) <==> post_sem(
                g,
                initial@,
            ).contains(v) by {
                if acc@.contains(v) {
                    let x = choose|x: Seq<bool>|
                        #[trigger] initial@.contains(x) && step_upto(g, g.s as int, x, v);
                    lemma_step_upto_full(g, x, v);
                    assert(initial@.contains(x) && step(g, x, v));
                }
                if post_sem(g, initial@).contains(v) {
                    let x = choose|x: Seq<bool>| #[trigger] initial@.contains(x) && step(g, x, v);
                    lemma_step_upto_full(g, x, v);
                    assert(initial@.contains(x) && step_upto(g, g.s as int, x, v));
                }
            }
            assert(acc@ =~= post_sem(g, initial@));
        }
        acc
    }

    /// Predecessors of `initial` by firing any network variable.
    pub fn pre(&self, initial: &GraphColoredVertices) -> (r: GraphColoredVertices)
        requires
            self.wf(),
            initial.wf(),
            initial.same_layout(self@.p, self@.s),
        ensures
            r.wf(),
            r.same_layout(self@.p, self@.s),
            r@ == pre_sem(self@, initial@),
    {
        let ghost g = self@;
        let mut acc = self.mk_empty_vertices();
        let mut i: u16 = 0;
        let count = self.context.s_var_count;
        while i < count
            invariant
                self.wf(),
                initial.wf(),
                initial.same_layout(g.p, g.s),
                g == self@,
                count == g.s,
                acc.wf(),
                acc.same_layout(g.p, g.s),
                0 <= i <= count,
                forall|v: Seq<bool>| #[trigger] acc@.contains(v) <==> exists|y: Seq<bool>|
                    #[trigger] initial@.contains(y) && step_upto(g, i as int, v, y),
            decreases count - i,
        {
            let stepped = self.var_pre(VariableId(i), initial);
            let next = acc.union(&stepped);
            proof {
                let k = i as int;
                assert forall|v: Seq<bool>| #[trigger] next@.contains(v) implies exists|
                    y: Seq<bool>,
                |
                    #[trigger] initial@.contains(y) && step_upto(g, k + 1, v, y) by {
                    if acc@.contains(v) {
                        let y = choose|y: Seq<bool>|
                            #[trigger] initial@.contains(y) && step_upto(g, k, v, y);
                        let j = choose|j: int| j < k && #[trigger] step_via(g, j, v, y);
                        assert(j < k + 1 && step_via(g, j, v, y));
                        assert(initial@.contains(y) && step_upto(g, k + 1, v, y));
                    } else {
                        assert(stepped@.contains(v));
                        let y = choose|y: Seq<bool>|
                            #[trigger] initial@.contains(y) && step_via(g, k, v, y);
                        assert(k < k + 1 && step_via(g, k, v, y));
                        assert(initial@.contains(y) && step_upto(g, k + 1, v, y));
                    }
                }
                assert forall|v: Seq<bool>| (exists|y: Seq<bool>|
                    #[trigger] initial@.contains(y) && step_upto(g, k + 1, v, y)) implies #[trigger] next@
                    .contains(v) by {
                    let y = choose|y: Seq<bool>|
                        #[trigger] initial@.contains(y) && step_upto(g, k + 1, v, y);
                    let j = choose|j: int| j < k + 1 && #[trigger] step_via(g, j, v, y);
                    if j < k {
                        assert(initial@.contains(y) && step_upto(g, k, v, y));
                        assert(acc@.contains(v));
                    } else {
                        assert(step_via(g, k, v, y));
                        assert(stepped@.contains(v));
                    }
                }
            }
            acc = next;
            i = i + 1;
        }
        proof {
            self.lemma_wf_sem();
            assert forall|v: Seq<bool>| #[trigger] acc@.contains(v) <==> pre_sem(
                g,
                initial@,
            ).contains(v) by {
                if acc@.contains(v) {
                    let y = choose|y: Seq<bool>|
                        #[trigger] initial@.contains(y) && step_upto(g, g.s as int, v, y);
                    lemma_step_upto_full(g, v, y);
                    assert(initial@.contains(y) && step(g, v, y));
                }
                if pre_sem(g, initial@).contains(v) {
                    let y = choose|y: Seq<bool>| #[trigger] initial@.contains(y) && step(g, v, y);
                    lemma_step_upto_full(g, v, y);
                    assert(initial@.contains(y) && step_upto(g, g.s as int, v, y));
                }
            }
            assert(acc@ =~= pre_sem(g, initial@));
        }
        acc
    }

    /// The subset of `set` that can fire some variable.
    pub fn can_post(&self, set: &GraphColoredVertices) -> (r: GraphColoredVertices)
        requires
            self.wf(),
            set.wf(),
            set.same_layout(self@.p, self@.s),
        ensures
            r.wf(),
            r.same_layout(self@.p, self@.s),
            r@ == can_post_sem(self@, set@),
    {
        let ghost g = self@;
        let mut acc = self.mk_empty_vertices();
        let mut i: u16 = 0;
        let count = self.context.s_var_count;
        while i < count
            invariant
                self.wf(),
                set.wf(),
                set.same_layout(g.p, g.s),
                g == self@,
                count == g.s,
                acc.wf(),
                acc.same_layout(g.p, g.s),
                0 <= i <= count,
                forall|v: Seq<bool>| #[trigger] acc@.contains(v) <==> set@.contains(v)
                    && (exists|y: Seq<bool>| #[trigger] step_upto(g, i as int, v, y)),
            decreases count - i,
        {
            let stepped = self.var_can_post(VariableId(i), set);
            let next = acc.union(&stepped);
            proof {
                let k = i as int;
                assert forall|v: Seq<bool>| #[trigger] next@.contains(v) implies set@.contains(v)
                    && (exists|y: Seq<bool>| #[trigger] step_upto(g, k + 1, v, y)) by {
                    if acc@.contains(v) {
                        let y = choose|y: Seq<bool>| #[trigger] step_upto(g, k, v, y);
                        let j = choose|j: int| j < k && #[trigger] step_via(g, j, v, y);
                        assert(j < k + 1 && step_via(g, j, v, y));
                        assert(step_upto(g, k + 1, v, y));
                    } else {
                        assert(stepped@.contains(v));
                        let y = choose|y: Seq<bool>| #[trigger] step_via(g, k, v, y);
                        assert(k < k + 1 && step_via(g, k, v, y));
                        assert(step_upto(g, k + 1, v, y));
                    }
                }
                assert forall|v: Seq<bool>| set@.contains(v) && (exists|y: Seq<bool>| #[trigger] step_upto(g, k + 1, v, y))
                    implies #[trigger] next@.contains(v) by {
                    let y = choose|y: Seq<bool>| #[trigger] step_upto(g, k + 1, v, y);
                    let j = choose|j: int| j < k + 1 && #[trigger] step_via(g, j, v, y);
                    if j < k {
                        assert(j < k && step_via(g, j, v, y));
                        assert(step_upto(g, k, v, y));
                        assert(acc@.contains(v));
                    } else {
                        assert(step_via(g, k, v, y));
                        assert(stepped@.contains(v));
                    }
                }
            }
            acc = next;
            i = i + 1;
        }
        proof {
            self.lemma_wf_sem();
            assert forall|v: Seq<bool>| #[trigger] acc@.contains(v) <==> can_post_sem(
                g,
                set@,
            ).contains(v) by {
                if acc@.contains(v) {
                    let y = choose|y: Seq<bool>| #[trigger] step_upto(g, g.s as int, v, y);
                    lemma_step_upto_full(g, v, y);
                }
                if can_post_sem(g, set@).contains(v) {
                    let y = choose|y: Seq<bool>| #[trigger] step(g, v, y);
                    lemma_step_upto_full(g, v, y);
                }
            }
            assert(acc@ =~= can_post_sem(g, set@));
        }
        acc
    }

    /// The subset of `set` with some predecessor.
    pub fn can_pre(&self, set: &GraphColoredVertices) -> (r: GraphColoredVertices)
        requires
            self.wf(),
            set.wf(),
            set.same_layout(self@.p, self@.s),
        ensures
            r.wf(),
            r.same_layout(self@.p, self@.s),
            r@ == can_pre_sem(self@, set@),
    {
        let ghost g = self@;
        let mut acc = self.mk_empty_vertices();
        let mut i: u16 = 0;
        let count = self.context.s_var_count;
        while i < count
            invariant
                self.wf(),
                set.wf(),
                set.same_layout(g.p, g.s),
                g == self@,
                count == g.s,
                acc.wf(),
                acc.same_layout(g.p, g.s),
                0 <= i <= count,
                forall|v: Seq<bool>| #[trigger] acc@.contains(v) <==> set@.contains(v)
                    && (exists|w: Seq<bool>| #[trigger] step_upto(g, i as int, w, v)),
            decreases count - i,
        {
            let stepped = self.var_can_pre(VariableId(i), set);
            let next = acc.union(&stepped);
            proof {
                let k = i as int;
                assert forall|v: Seq<bool>| #[trigger] next@.contains(v) implies set@.contains(v)
                    && (exists|w: Seq<bool>| #[trigger] step_upto(g, k + 1, w, v)) by {
                    if acc@.contains(v) {
                        let w = choose|w: Seq<bool>| #[trigger] step_upto(g, k, w, v);
                        let j = choose|j: int| j < k && #[trigger] step_via(g, j, w, v);
                        assert(j < k + 1 && step_via(g, j, w, v));
                        assert(step_upto(g, k + 1, w, v));
                    } else {
                        assert(stepped@.contains(v));
                        let w = choose|w: Seq<bool>| #[trigger] step_via(g, k, w, v);
                        assert(k < k + 1 && step_via(g, k, w, v));
                        assert(step_upto(g, k + 1, w, v));
                    }
                }
                assert forall|v: Seq<bool>| set@.contains(v) && (exists|w: Seq<bool>| #[trigger] step_upto(g, k + 1, w, v))
                    implies #[trigger] next@.contains(v) by {
                    let w = choose|w: Seq<bool>| #[trigger] step_upto(g, k + 1, w, v);
                    let j = choose|j: int| j < k + 1 && #[trigger] step_via(g, j, w, v);
                    if j < k {
                        assert(j < k && step_via(g, j, w, v));
                        assert(step_upto(g, k, w, v));
                        assert(acc@.contains(v));
                    } else {
                        assert(step_via(g, k, w, v));
                        assert(stepped@.contains(v));
                    }
                }
            }
            acc = next;
            i = i + 1;
        }
        proof {
            self.lemma_wf_sem();
            assert forall|v: Seq<bool>| #[trigger] acc@.contains(v) <==> can_pre_sem(
                g,
                set@,
            ).contains(v) by {
                if acc@.contains(v) {
                    let w = choose|w: Seq<bool>| #[trigger] step_upto(g, g.s as int, w, v);
                    lemma_step_upto_full(g, w, v);
                }
                if can_pre_sem(g, set@).contains(v) {
                    let w = choose|w: Seq<bool>| #[trigger] step(g, w, v);
                    lemma_step_upto_full(g, w, v);
                }
            }
            assert(acc@ =~= can_pre_sem(g, set@));
        }
        acc
    }

    /// The subset of `set` with some successor inside `set`.
    pub fn can_post_within(&self, set: &GraphColoredVertices) -> (r: GraphColoredVertices)
        requires
            self.wf(),
            set.wf(),
            set.same_layout(self@.p, self@.s),
        ensures
            r.wf(),
            r.same_layout(self@.p, self@.s),
            r@ == can_post_within_sem(self@, set@),
    {
        let ghost g = self@;
        let mut acc = self.mk_empty_vertices();
        let mut i: u16 = 0;
        let count = self.context.s_var_count;
        while i < count
            invariant
                self.wf(),
                set.wf(),
                set.same_layout(g.p, g.s),
                g == self@,
                count == g.s,
                acc.wf(),
                acc.same_layout(g.p, g.s),
                0 <= i <= count,
                forall|v: Seq<bool>| #[trigger] acc@.contains(v) <==> set@.contains(v)
                    && (exists|y: Seq<bool>| #[trigger] set@.contains(y) && step_upto(g, i as int, v, y)),
            decreases count - i,
        {
            let stepped = self.var_can_post_within(VariableId(i), set);
            let next = acc.union(&stepped);
            proof {
                let k = i as int;
                assert forall|v: Seq<bool>| #[trigger] next@.contains(v) implies set@.contains(v)
                    && (exists|y: Seq<bool>| #[trigger] set@.contains(y) && step_upto(g, k + 1, v, y)) by {
                    if acc@.contains(v) {
                        let y = choose|y: Seq<bool>| #[trigger] set@.contains(y) && step_upto(g, k, v, y);
                        let j = choose|j: int| j < k && #[trigger] step_via(g, j, v, y);
                        assert(j < k + 1 && step_via(g, j, v, y));
                    } else {
                        assert(stepped@.contains(v));
                        let y = choose|y: Seq<bool>| #[trigger] set@.contains(y) && step_via(g, k, v, y);
                        assert(k < k + 1 && step_via(g, k, v, y));
                    }
                }
                assert forall|v: Seq<bool>| set@.contains(v) && (exists|y: Seq<bool>| #[trigger] set@.contains(y) && step_upto(g, k + 1, v, y))
                    implies #[trigger] next@.contains(v) by {
                    let y = choose|y: Seq<bool>| #[trigger] set@.contains(y) && step_upto(g, k + 1, v, y);
                    let j = choose|j: int| j < k + 1 && #[trigger] step_via(g, j, v, y);
                    if j < k {
                        assert(j < k && step_via(g, j, v, y));
                        assert(acc@.contains(v));
                    } else {
                        assert(step_via(g, k, v, y));
                        assert(stepped@.contains(v));
                    }
                }
            }
            acc = next;
            i = i + 1;
        }
        proof {
            self.lemma_wf_sem();
            assert forall|v: Seq<bool>| #[trigger] acc@.contains(v) <==> can_post_within_sem(
                g,
                set@,
            ).contains(v) by {
                if acc@.contains(v) {
                    let y = choose|y: Seq<bool>| #[trigger] set@.contains(y) && step_upto(g, g.s as int, v, y);
                    lemma_step_upto_full(g, v, y);
                }
                if can_post_within_sem(g, set@).contains(v) {
                    let y = choose|y: Seq<bool>| #[trigger] set@.contains(y) && step(g, v, y);
                    lemma_step_upto_full(g, v, y);
                }
            }
            assert(acc@ =~= can_post_within_sem(g, set@));
        }
        acc
    }

    /// The subset of `set` with some predecessor inside `set`.
    pub fn can_pre_within(&self, set: &GraphColoredVertices) -> (r: GraphColoredVertices)
        requires
            self.wf(),
            set.wf(),
            set.same_layout(self@.p, self@.s),
        ensures
            r.wf(),
            r.same_layout(self@.p, self@.s),
            r@ == can_pre_within_sem(self@, set@),
    {
        let ghost g = self@;
        let mut acc = self.mk_empty_vertices();
        let mut i: u16 = 0;
        let count = self.context.s_var_count;
        while i < count
            invariant
                self.wf(),
                set.wf(),
                set.same_layout(g.p, g.s),
                g == self@,
                count == g.s,
                acc.wf(),
                acc.same_layout(g.p, g.s),
                0 <= i <= count,
                forall|v: Seq<bool>| #[trigger] acc@.contains(v) <==> set@.contains(v)
                    && (exists|w: Seq<bool>| #[trigger] set@.contains(w) && step_upto(g, i as int, w, v)),
            decreases count - i,
        {
            let stepped = self.var_can_pre_within(VariableId(i), set);
            let next = acc.union(&stepped);
            proof {
                let k = i as int;
                assert forall|v: Seq<bool>| #[trigger] next@.contains(v) implies set@.contains(v)
                    && (exists|w: Seq<bool>| #[trigger] set@.contains(w) && step_upto(g, k + 1, w, v)) by {
                    if acc@.contains(v) {
                        let w = choose|w: Seq<bool>| #[trigger] set@.contains(w) && step_upto(g, k, w, v);
                        let j = choose|j: int| j < k && #[trigger] step_via(g, j, w, v);
                        assert(j < k + 1 && step_via(g, j, w, v));
                    } else {
                        assert(stepped@.contains(v));
                        let w = choose|w: Seq<bool>| #[trigger] set@.contains(w) && step_via(g, k, w, v);
                        assert(k < k + 1 && step_via(g, k, w, v));
                    }
                }
                assert forall|v: Seq<bool>| set@.contains(v) && (exists|w: Seq<bool>| #[trigger] set@.contains(w) && step_upto(g, k + 1, w, v))
                    implies #[trigger] next@.contains(v) by {
                    let w = choose|w: Seq<bool>| #[trigger] set@.contains(w) && step_upto(g, k + 1, w, v);
                    let j = choose|j: int| j < k + 1 && #[trigger] step_via(g, j, w, v);
                    if j < k {
                        assert(j < k && step_via(g, j, w, v));
                        assert(acc@.contains(v));
                    } else {
                        assert(step_via(g, k, w, v));
                        assert(stepped@.contains(v));
                    }
                }
            }
            acc = next;
            i = i + 1;
        }
        proof {
            self.lemma_wf_sem();
            assert forall|v: Seq<bool>| #[trigger] acc@.contains(v) <==> can_pre_within_sem(
                g,
                set@,
            ).contains(v) by {
                if acc@.contains(v) {
                    let w = choose|w: Seq<bool>| #[trigger] set@.contains(w) && step_upto(g, g.s as int, w, v);
                    lemma_step_upto_full(g, w, v);
                }
                if can_pre_within_sem(g, set@).contains(v) {
                    let w = choose|w: Seq<bool>| #[trigger] set@.contains(w) && step(g, w, v);
                    lemma_step_upto_full(g, w, v);
                }
            }
            assert(acc@ =~= can_pre_within_sem(g, set@));
        }
        acc
    }

    /// The subset of `set` with some successor outside `set`.
    pub fn can_post_out(&self, set: &GraphColoredVertices) -> (r: GraphColoredVertices)
        requires
            self.wf(),
            set.wf(),
            set.same_layout(self@.p, self@.s),
        ensures
            r.wf(),
            r.same_layout(self@.p, self@.s),
            r@ == can_post_out_sem(self@, set@),
    {
        let ghost g = self@;
        let mut acc = self.mk_empty_vertices();
        let mut i: u16 = 0;
        let count = self.context.s_var_count;
        while i < count
            invariant
                self.wf(),
                set.wf(),
                set.same_layout(g.p, g.s),
                g == self@,
                count == g.s,
                acc.wf(),
                acc.same_layout(g.p, g.s),
                0 <= i <= count,
                forall|v: Seq<bool>| #[trigger] acc@.contains(v) <==> set@.contains(v)
                    && (exists|y: Seq<bool>| !#[trigger] set@.contains(y) && step_upto(g, i as int, v, y)),
            decreases count - i,
        {
            let stepped = self.var_can_post_out(VariableId(i), set);
            let next = acc.union(&stepped);
            proof {
                let k = i as int;
                assert forall|v: Seq<bool>| #[trigger] next@.contains(v) implies set@.contains(v)
                    && (exists|y: Seq<bool>| !#[trigger] set@.contains(y) && step_upto(g, k + 1, v, y)) by {
                    if acc@.contains(v) {
                        let y = choose|y: Seq<bool>| !#[trigger] set@.contains(y) && step_upto(g, k, v, y);
                        let j = choose|j: int| j < k && #[trigger] step_via(g, j, v, y);
                        assert(j < k + 1 && step_via(g, j, v, y));
                    } else {
                        assert(stepped@.contains(v));
                        let y = choose|y: Seq<bool>| !#[trigger] set@.contains(y) && step_via(g, k, v, y);
                        assert(k < k + 1 && step_via(g, k, v, y));
                    }
                }
                assert forall|v: Seq<bool>| set@.contains(v) && (exists|y: Seq<bool>| !#[trigger] set@.contains(y) && step_upto(g, k + 1, v, y))
                    implies #[trigger] next@.contains(v) by {
                    let y = choose|y: Seq<bool>| !#[trigger] set@.contains(y) && step_upto(g, k + 1, v, y);
                    let j = choose|j: int| j < k + 1 && #[trigger] step_via(g, j, v, y);
                    if j < k {
                        assert(j < k && step_via(g, j, v, y));
                        assert(acc@.contains(v));
                    } else {
                        assert(step_via(g, k, v, y));
                        assert(stepped@.contains(v));
                    }
                }
            }
            acc = next;
            i = i + 1;
        }
        proof {
            self.lemma_wf_sem();
            assert forall|v: Seq<bool>| #[trigger] acc@.contains(v) <==> can_post_out_sem(
                g,
                set@,
            ).contains(v) by {
                if acc@.contains(v) {
                    let y = choose|y: Seq<bool>| !#[trigger] set@.contains(y) && step_upto(g, g.s as int, v, y);
                    lemma_step_upto_full(g, v, y);
                }
                if can_post_out_sem(g, set@).contains(v) {
                    let y = choose|y: Seq<bool>| !#[trigger] set@.contains(y) && step(g, v, y);
                    lemma_step_upto_full(g, v, y);
                }
            }
            assert(acc@ =~= can_post_out_sem(g, set@));
        }
        acc
    }

    /// The subset of `set` with some predecessor outside `set`.
    pub fn can_pre_out(&self, set: &GraphColoredVertices) -> (r: GraphColoredVertices)
        requires
            self.wf(),
            set.wf(),
            set.same_layout(self@.p, self@.s),
        ensures
            r.wf(),
            r.same_layout(self@.p, self@.s),
            r@ == can_pre_out_sem(self@, set@),
    {
        let ghost g = self@;
        let mut acc = self.mk_empty_vertices();
        let mut i: u16 = 0;
        let count = self.context.s_var_count;
        while i < count
            invariant
                self.wf(),
                set.wf(),
                set.same_layout(g.p, g.s),
                g == self@,
                count == g.s,
                acc.wf(),
                acc.same_layout(g.p, g.s),
                0 <= i <= count,
                forall|v: Seq<bool>| #[trigger] acc@.contains(v) <==> set@.contains(v)
                    && (exists|w: Seq<bool>| !#[trigger] set@.contains(w) && step_upto(g, i as int, w, v)),
            decreases count - i,
        {
            let stepped = self.var_can_pre_out(VariableId(i), set);
            let next = acc.union(&stepped);
            proof {
                let k = i as int;
                assert forall|v: Seq<bool>| #[trigger] next@.contains(v) implies set@.contains(v)
                    && (exists|w: Seq<bool>| !#[trigger] set@.contains(w) && step_upto(g, k + 1, w, v)) by {
                    if acc@.contains(v) {
                        let w = choose|w: Seq<bool>| !#[trigger] set@.contains(w) && step_upto(g, k, w, v);
                        let j = choose|j: int| j < k && #[trigger] step_via(g, j, w, v);
                        assert(j < k + 1 && step_via(g, j, w, v));
                    } else {
                        assert(stepped@.contains(v));
                        let w = choose|w: Seq<bool>| !#[trigger] set@.contains(w) && step_via(g, k, w, v);
                        assert(k < k + 1 && step_via(g, k, w, v));
                    }
                }
                assert forall|v: Seq<bool>| set@.contains(v) && (exists|w: Seq<bool>| !#[trigger] set@.contains(w) && step_upto(g, k + 1, w, v))
                    implies #[trigger] next@.contains(v) by {
                    let w = choose|w: Seq<bool>| !#[trigger] set@.contains(w) && step_upto(g, k + 1, w, v);
                    let j = choose|j: int| j < k + 1 && #[trigger] step_via(g, j, w, v);
                    if j < k {
                        assert(j < k && step_via(g, j, w, v));
                        assert(acc@.contains(v));
                    } else {
                        assert(step_via(g, k, w, v));
                        assert(stepped@.contains(v));
                    }
                }
            }
            acc = next;
            i = i + 1;
        }
        proof {
            self.lemma_wf_sem();
            assert forall|v: Seq<bool>| #[trigger] acc@.contains(v) <==> can_pre_out_sem(
                g,
                set@,
            ).contains(v) by {
                if acc@.contains(v) {
                    let w = choose|w: Seq<bool>| !#[trigger] set@.contains(w) && step_upto(g, g.s as int, w, v);
                    lemma_step_upto_full(g, w, v);
                }
                if can_pre_out_sem(g, set@).contains(v) {
                    let w = choose|w: Seq<bool>| !#[trigger] set@.contains(w) && step(g, w, v);
                    lemma_step_upto_full(g, w, v);
                }
            }
            assert(acc@ =~= can_pre_out_sem(g, set@));
        }
        acc
    }

    /// The subset of `set` whose every admissible transition stays inside `set`; states with no transition at all are included.
    pub fn will_post_within(&self, set: &GraphColoredVertices) -> (r: GraphColoredVertices)
        requires
            self.wf(),
            set.wf(),
            set.same_layout(self@.p, self@.s),
        ensures
            r.wf(),
            r.same_layout(self@.p, self@.s),
            r@ == will_post_within_sem(self@, set@),
    {
        let ghost g = self@;
        let mut acc = set.clone();
        let mut i: u16 = 0;
        let count = self.context.s_var_count;
        while i < count
            invariant
                self.wf(),
                set.wf(),
                set.same_layout(g.p, g.s),
                g == self@,
                count == g.s,
                acc.wf(),
                acc.same_layout(g.p, g.s),
                0 <= i <= count,
                forall|v: Seq<bool>| #[trigger] acc@.contains(v) <==> set@.contains(v) && (forall|
                    j: int,
                    y: Seq<bool>,
                |
                    j < i as int && #[trigger] step_via(g, j, v, y) ==> set@.contains(y)),
            decreases count - i,
        {
            let stepped = self.var_can_post_out(VariableId(i), set);
            let next = acc.minus(&stepped);
            proof {
                let k = i as int;
                assert forall|v: Seq<bool>| #[trigger] next@.contains(v) implies set@.contains(v)
                    && (forall|j: int, y: Seq<bool>|
                    j < k + 1 && #[trigger] step_via(g, j, v, y) ==> set@.contains(y)) by {
                    assert(acc@.contains(v) && !stepped@.contains(v));
                    assert forall|j: int, y: Seq<bool>|
                        j < k + 1 && #[trigger] step_via(g, j, v, y) implies set@.contains(y) by {
                        if j < k {
                            assert(step_via(g, j, v, y));
                        } else {
                            if !(set@.contains(y)) {
                                assert(!#[trigger] set@.contains(y) && step_via(g, k, v, y));
                                assert(stepped@.contains(v));
                            }
                        }
                    }
                }
                assert forall|v: Seq<bool>| set@.contains(v) && (forall|j: int, y: Seq<bool>|
                    j < k + 1 && #[trigger] step_via(g, j, v, y) ==> set@.contains(y)) implies #[trigger] next@
                    .contains(v) by {
                    assert(acc@.contains(v));
                    if stepped@.contains(v) {
                        let y = choose|y: Seq<bool>| !#[trigger] set@.contains(y) && step_via(g, k, v, y);
                        assert(k < k + 1 && step_via(g, k, v, y));
                    }
                    assert(!stepped@.contains(v));
                }
            }
            acc = next;
            i = i + 1;
        }
        proof {
            self.lemma_wf_sem();
            assert forall|v: Seq<bool>| #[trigger] acc@.contains(v) <==> will_post_within_sem(
                g,
                set@,
            ).contains(v) by {
                if acc@.contains(v) {
                    assert forall|y: Seq<bool>| #[trigger] step(g, v, y) implies set@.contains(y) by {
                        let j = choose|j: int| step_via(g, j, v, y);
                        assert(j < g.s as int && step_via(g, j, v, y));
                    }
                }
                if will_post_within_sem(g, set@).contains(v) {
                    assert forall|j: int, y: Seq<bool>|
                        j < g.s as int && #[trigger] step_via(g, j, v, y) implies set@.contains(y) by {
                        assert(step(g, v, y));
                    }
                }
            }
            assert(acc@ =~= will_post_within_sem(g, set@));
        }
        acc
    }

    /// The subset of `set` whose every predecessor lies inside `set`; states with no predecessor at all are included.
    pub fn will_pre_within(&self, set: &GraphColoredVertices) -> (r: GraphColoredVertices)
        requires
            self.wf(),
            set.wf(),
            set.same_layout(self@.p, self@.s),
        ensures
            r.wf(),
            r.same_layout(self@.p, self@.s),
            r@ == will_pre_within_sem(self@, set@),
    {
        let ghost g = self@;
        let mut acc = set.clone();
        let mut i: u16 = 0;
        let count = self.context.s_var_count;
        while i < count
            invariant
                self.wf(),
                set.wf(),
                set.same_layout(g.p, g.s),
                g == self@,
                count == g.s,
                acc.wf(),
                acc.same_layout(g.p, g.s),
                0 <= i <= count,
                forall|v: Seq<bool>| #[trigger] acc@.contains(v) <==> set@.contains(v) && (forall|
                    j: int,
                    w: Seq<bool>,
                |
                    j < i as int && #[trigger] step_via(g, j, w, v) ==> set@.contains(w)),
            decreases count - i,
        {
            let stepped = self.var_can_pre_out(VariableId(i), set);
            let next = acc.minus(&stepped);
            proof {
                let k = i as int;
                assert forall|v: Seq<bool>| #[trigger] next@.contains(v) implies set@.contains(v)
                    && (forall|j: int, w: Seq<bool>|
                    j < k + 1 && #[trigger] step_via(g, j, w, v) ==> set@.contains(w)) by {
                    assert(acc@.contains(v) && !stepped@.contains(v));
                    assert forall|j: int, w: Seq<bool>|
                        j < k + 1 && #[trigger] step_via(g, j, w, v) implies set@.contains(w) by {
                        if j < k {
                            assert(step_via(g, j, w, v));
                        } else {
                            if !(set@.contains(w)) {
                                assert(!#[trigger] set@.contains(w) && step_via(g, k, w, v));
                                assert(stepped@.contains(v));
                            }
                        }
                    }
                }
                assert forall|v: Seq<bool>| set@.contains(v) && (forall|j: int, w: Seq<bool>|
                    j < k + 1 && #[trigger] step_via(g, j, w, v) ==> set@.contains(w)) implies #[trigger] next@
                    .contains(v) by {
                    assert(acc@.contains(v));
                    if stepped@.contains(v) {
                        let w = choose|w: Seq<bool>| !#[trigger] set@.contains(w) && step_via(g, k, w, v);
                        assert(k < k + 1 && step_via(g, k, w, v));
                    }
                    assert(!stepped@.contains(v));
                }
            }
            acc = next;
            i = i + 1;
        }
        proof {
            self.lemma_wf_sem();
            assert forall|v: Seq<bool>| #[trigger] acc@.contains(v) <==> will_pre_within_sem(
                g,
                set@,
            ).contains(v) by {
                if acc@.contains(v) {
                    assert forall|w: Seq<bool>| #[trigger] step(g, w, v) implies set@.contains(w) by {
                        let j = choose|j: int| step_via(g, j, w, v);
                        assert(j < g.s as int && step_via(g, j, w, v));
                    }
                }
                if will_pre_within_sem(g, set@).contains(v) {
                    assert forall|j: int, w: Seq<bool>|
                        j < g.s as int && #[trigger] step_via(g, j, w, v) implies set@.contains(w) by {
                        assert(step(g, w, v));
                    }
                }
            }
            assert(acc@ =~= will_pre_within_sem(g, set@));
        }
        acc
    }

    /// The subset of `set` whose every admissible transition leaves `set`; states with no transition at all are included.
    pub fn will_post_out(&self, set: &GraphColoredVertices) -> (r: GraphColoredVertices)
        requires
            self.wf(),
            set.wf(),
            set.same_layout(self@.p, self@.s),
        ensures
            r.wf(),
            r.same_layout(self@.p, self@.s),
            r@ == will_post_out_sem(self@, set@),
    {
        let ghost g = self@;
        let mut acc = set.clone();
        let mut i: u16 = 0;
        let count = self.context.s_var_count;
        while i < count
            invariant
                self.wf(),
                set.wf(),
                set.same_layout(g.p, g.s),
                g == self@,
                count == g.s,
                acc.wf(),
                acc.same_layout(g.p, g.s),
                0 <= i <= count,
                forall|v: Seq<bool>| #[trigger] acc@.contains(v) <==> set@.contains(v) && (forall|
                    j: int,
                    y: Seq<bool>,
                |
                    j < i as int && #[trigger] step_via(g, j, v, y) ==> !set@.contains(y)),
            decreases count - i,
        {
            let stepped = self.var_can_post_within(VariableId(i), set);
            let next = acc.minus(&stepped);
            proof {
                let k = i as int;
                assert forall|v: Seq<bool>| #[trigger] next@.contains(v) implies set@.contains(v)
                    && (forall|j: int, y: Seq<bool>|
                    j < k + 1 && #[trigger] step_via(g, j, v, y) ==> !set@.contains(y)) by {
                    assert(acc@.contains(v) && !stepped@.contains(v));
                    assert forall|j: int, y: Seq<bool>|
                        j < k + 1 && #[trigger] step_via(g, j, v, y) implies !set@.contains(y) by {
                        if j < k {
                            assert(step_via(g, j, v, y));
                        } else {
                            if !(!set@.contains(y)) {
                                assert(#[trigger] set@.contains(y) && step_via(g, k, v, y));
                                assert(stepped@.contains(v));
                            }
                        }
                    }
                }
                assert forall|v: Seq<bool>| set@.contains(v) && (forall|j: int, y: Seq<bool>|
                    j < k + 1 && #[trigger] step_via(g, j, v, y) ==> !set@.contains(y)) implies #[trigger] next@
                    .contains(v) by {
                    assert(acc@.contains(v));
                    if stepped@.contains(v) {
                        let y = choose|y: Seq<bool>| #[trigger] set@.contains(y) && step_via(g, k, v, y);
                        assert(k < k + 1 && step_via(g, k, v, y));
                    }
                    assert(!stepped@.contains(v));
                }
            }
            acc = next;
            i = i + 1;
        }
        proof {
            self.lemma_wf_sem();
            assert forall|v: Seq<bool>| #[trigger] acc@.contains(v) <==> will_post_out_sem(
                g,
                set@,
            ).contains(v) by {
                if acc@.contains(v) {
                    assert forall|y: Seq<bool>| #[trigger] step(g, v, y) implies !set@.contains(y) by {
                        let j = choose|j: int| step_via(g, j, v, y);
                        assert(j < g.s as int && step_via(g, j, v, y));
                    }
                }
                if will_post_out_sem(g, set@).contains(v) {
                    assert forall|j: int, y: Seq<bool>|
                        j < g.s as int && #[trigger] step_via(g, j, v, y) implies !set@.contains(y) by {
                        assert(step(g, v, y));
                    }
                }
            }
            assert(acc@ =~= will_post_out_sem(g, set@));
        }
        acc
    }

    /// The subset of `set` whose every predecessor lies outside `set`; states with no predecessor at all are included.
    pub fn will_pre_out(&self, set: &GraphColoredVertices) -> (r: GraphColoredVertices)
        requires
            self.wf(),
            set.wf(),
            set.same_layout(self@.p, self@.s),
        ensures
            r.wf(),
            r.same_layout(self@.p, self@.s),
            r@ == will_pre_out_sem(self@, set@),
    {
        let ghost g = self@;
        let mut acc = set.clone();
        let mut i: u16 = 0;
        let count = self.context.s_var_count;
        while i < count
            invariant
                self.wf(),
                set.wf(),
                set.same_layout(g.p, g.s),
                g == self@,
                count == g.s,
                acc.wf(),
                acc.same_layout(g.p, g.s),
                0 <= i <= count,
                forall|v: Seq<bool>| #[trigger] acc@.contains(v) <==> set@.contains(v) && (forall|
                    j: int,
                    w: Seq<bool>,
                |
                    j < i as int && #[trigger] step_via(g, j, w, v) ==> !set@.contains(w)),
            decreases count - i,
        {
            let stepped = self.var_can_pre_within(VariableId(i), set);
            let next = acc.minus(&stepped);
            proof {
                let k = i as int;
                assert forall|v: Seq<bool>| #[trigger] next@.contains(v) implies set@.contains(v)
                    && (forall|j: int, w: Seq<bool>|
                    j < k + 1 && #[trigger] step_via(g, j, w, v) ==> !set@.contains(w)) by {
                    assert(acc@.contains(v) && !stepped@.contains(v));
                    assert forall|j: int, w: Seq<bool>|
                        j < k + 1 && #[trigger] step_via(g, j, w, v) implies !set@.contains(w) by {
                        if j < k {
                            assert(step_via(g, j, w, v));
                        } else {
                            if !(!set@.contains(w)) {
                                assert(#[trigger] set@.contains(w) && step_via(g, k, w, v));
                                assert(stepped@.contains(v));
                            }
                        }
                    }
                }
                assert forall|v: Seq<bool>| set@.contains(v) && (forall|j: int, w: Seq<bool>|
                    j < k + 1 && #[trigger] step_via(g, j, w, v) ==> !set@.contains(w)) implies #[trigger] next@
                    .contains(v) by {
                    assert(acc@.contains(v));
                    if stepped@.contains(v) {
                        let w = choose|w: Seq<bool>| #[trigger] set@.contains(w) && step_via(g, k, w, v);
                        assert(k < k + 1 && step_via(g, k, w, v));
                    }
                    assert(!stepped@.contains(v));
                }
            }
            acc = next;
            i = i + 1;
        }
        proof {
            self.lemma_wf_sem();
            assert forall|v: Seq<bool>| #[trigger] acc@.contains(v) <==> will_pre_out_sem(
                g,
                set@,
            ).contains(v) by {
                if acc@.contains(v) {
                    assert forall|w: Seq<bool>| #[trigger] step(g, w, v) implies !set@.contains(w) by {
                        let j = choose|j: int| step_via(g, j, w, v);
                        assert(j < g.s as int && step_via(g, j, w, v));
                    }
                }
                if will_pre_out_sem(g, set@).contains(v) {
                    assert forall|j: int, w: Seq<bool>|
                        j < g.s as int && #[trigger] step_via(g, j, w, v) implies !set@.contains(w) by {
                        assert(step(g, w, v));
                    }
                }
            }
            assert(acc@ =~= will_pre_out_sem(g, set@));
        }
        acc
    }
}

} // verus!
