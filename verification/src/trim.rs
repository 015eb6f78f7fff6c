//! Trimming: iterative removal of (state, color) pairs that cannot lie on
//! a cycle within the current subspace.
//!
//! The first loop discards pairs with no in-set predecessor until a
//! fixpoint, the second loop discards pairs with no in-set successor; the
//! predecessor property survives the second loop because removing a pair
//! with no successor never removes the last predecessor of a survivor.
//! The result is exactly `trim_sem`: the largest subset in which every
//! pair keeps both an in-set predecessor and an in-set successor.

use vstd::prelude::*;

verus! {

use crate::async_graph::SymbolicAsyncGraph;
use crate::colored_sets::GraphColoredVertices;
use crate::semantics::{
    trim_sem,
    trim_good,
    all_have_pred_in,
    all_have_succ_in,
    lemma_trim_phase_pred,
    lemma_trim_phase_succ,
    lemma_trim_exit_pred,
    lemma_trim_exit_succ,
    lemma_trim_sem_subset,
    lemma_trim_sem_largest,
    lemma_strict_subset_len,
};

/// Shrink `set` to the largest subset in which every (state, color) pair
/// has an in-set predecessor and an in-set successor: the necessary
/// condition for lying on a cycle.  An empty result means the subspace has
/// no non-trivial component for any color.
pub fn trim(graph: &SymbolicAsyncGraph, set: GraphColoredVertices) -> (r: GraphColoredVertices)
    requires
        graph.wf(),
        set.wf(),
        set.same_layout(graph@.p, graph@.s),
    ensures
        r.wf(),
        r.same_layout(graph@.p, graph@.s),
        r@ == trim_sem(graph@, set@),
{
    let ghost g = graph@;
    let ghost orig = set@;
    let mut cur = set;
    loop
        invariant_except_break
            graph.wf(),
            g == graph@,
            cur.wf(),
            cur.same_layout(g.p, g.s),
            trim_sem(g, cur@) == trim_sem(g, orig),
        ensures
            cur.wf(),
            cur.same_layout(g.p, g.s),
            trim_sem(g, cur@) == trim_sem(g, orig),
            all_have_pred_in(g, cur@),
        decreases cur@.len(),
    {
        // pairs of `cur` with a predecessor inside `cur`
        let pre_set = graph.pre(&cur).intersect(&cur);
        // their successors inside `cur`: everything else has no in-set
        // predecessor
        let post_set = graph.post(&pre_set).intersect(&cur);
        if cur.is_subset(&post_set) {
            proof {
                lemma_trim_exit_pred(g, cur@);
            }
            break;
        }
        proof {
            cur.lemma_wf_props();
            lemma_trim_phase_pred(g, cur@);
            lemma_strict_subset_len(post_set@, cur@);
        }
        cur = post_set;
    }
    loop
        invariant_except_break
            graph.wf(),
            g == graph@,
            cur.wf(),
            cur.same_layout(g.p, g.s),
            trim_sem(g, cur@) == trim_sem(g, orig),
            all_have_pred_in(g, cur@),
        ensures
            cur.wf(),
            cur.same_layout(g.p, g.s),
            trim_sem(g, cur@) == trim_sem(g, orig),
            all_have_pred_in(g, cur@),
            all_have_succ_in(g, cur@),
        decreases cur@.len(),
    {
        // pairs of `cur` with a successor inside `cur`
        let post_set = graph.post(&cur).intersect(&cur);
        // their predecessors inside `cur`: everything else has no in-set
        // successor
        let pre_set = graph.pre(&post_set).intersect(&cur);
        if cur.is_subset(&pre_set) {
            proof {
                lemma_trim_exit_succ(g, cur@);
            }
            break;
        }
        proof {
            cur.lemma_wf_props();
            lemma_trim_phase_succ(g, cur@);
            lemma_strict_subset_len(pre_set@, cur@);
        }
        cur = pre_set;
    }
    proof {
        assert(trim_good(g, cur@));
        lemma_trim_sem_largest(g, cur@, cur@);
        lemma_trim_sem_subset(g, cur@);
        assert(cur@ =~= trim_sem(g, cur@));
    }
    cur
}

} // verus!
