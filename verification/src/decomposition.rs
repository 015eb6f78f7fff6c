//! SCC decomposition: worklist-driven divide-and-conquer search for the
//! non-trivial strongly connected components of the colored transition
//! system.
//!
//! Each pass pops a universe, trims it, selects one pivot per color, grows
//! the forward and backward reachable sets of the pivots, declares their
//! intersection the component layer, records the colors for which the
//! component holds more than the pivot, and pushes two smaller disjoint
//! sub-universes.

use vstd::prelude::*;

verus! {

use crate::VariableId;
use crate::async_graph::SymbolicAsyncGraph;
use crate::colored_sets::{GraphColoredVertices, GraphColors, covers_colors, one_per_color};
use crate::semantics::{
    GraphSem,
    step,
    step_via,
    post_sem,
    pre_sem,
    fwd_reach,
    bwd_reach,
    reaches_within,
    has_cycle,
    trim_sem,
    lemma_reaches_mono,
    lemma_reaches_along,
    lemma_reaches_trans,
    lemma_reaches_color,
    lemma_step_color,
    lemma_step_distinct,
    lemma_cycle_closed_fwd,
    lemma_cycle_closed_bwd,
    lemma_cycle_in_trim,
    lemma_has_cycle_nonempty,
    lemma_fwd_reach_step,
    lemma_bwd_reach_step,
    lemma_trim_acyclic_empty,
    lemma_step_same_color_set,
    is_path_in,
    lemma_trim_sem_monotone,
    lemma_trim_sem_subset,
    lemma_reaches_extend,
    lemma_reaches_prepend,
    lemma_fwd_reach_subset,
    lemma_bwd_reach_subset,
    lemma_reach_contains_pivots,
    lemma_fwd_reach_in_closed,
    lemma_bwd_reach_in_closed,
    lemma_disjoint_union_len,
};
use crate::trim::trim;
use crate::valuations::{color_eq, color_projection, state_closed};

/// Records the non-trivial color-labeled components as they are found.
/// The number of `push` calls is the algorithm's final answer; the same
/// physical component may be recorded once per discovery, so color sets of
/// distinct entries may overlap.
pub struct Counter {
    items: Vec<GraphColors>,
}

impl View for Counter {
    type V = Seq<Set<Seq<bool>>>;

    closed spec fn view(&self) -> Seq<Set<Seq<bool>>> {
        Seq::new(self.items@.len(), |i: int| self.items@[i]@)
    }
}

impl Counter {
    /// An empty record for a search over the given graph.
    pub fn new(_graph: &SymbolicAsyncGraph) -> (r: Counter)
        ensures
            r@.len() == 0,
    {
        Counter { items: Vec::new() }
    }

    /// Record one non-trivial component, valid exactly for `colors`.
    pub fn push(&mut self, colors: &GraphColors)
        requires
            colors.wf(),
        ensures
            final(self)@ == old(self)@.push(colors@),
    {
        self.items.push(colors.clone());
        proof {
            assert(self@ =~= old(self)@.push(colors@));
        }
    }

    /// The number of recorded components.
    pub fn len(&self) -> (r: usize)
        ensures
            r == self@.len(),
    {
        self.items.len()
    }
}

/// Bookkeeping threaded through the recursive splits of the spine variant:
/// a provisional path set per color and a provisional pivot set, reused by
/// sub-searches to avoid re-selecting representatives from scratch.
pub struct ColoredSpineSet {
    pub spine: GraphColoredVertices,
    pub pivot: GraphColoredVertices,
}

/// The total number of (state, color) pairs outstanding on a worklist.
pub open spec fn stack_volume(s: Seq<(GraphColoredVertices, ColoredSpineSet)>) -> nat
    decreases s.len(),
{
    if s.len() == 0 {
        0
    } else {
        s.last().0@.len() + stack_volume(s.drop_last())
    }
}

proof fn lemma_stack_volume_push(
    s: Seq<(GraphColoredVertices, ColoredSpineSet)>,
    x: (GraphColoredVertices, ColoredSpineSet),
)
    ensures
        stack_volume(s.push(x)) == stack_volume(s) + x.0@.len(),
{
    assert(s.push(x).drop_last() =~= s);
    assert(s.push(x).last() == x);
}

/// Every sub-universe of one split lies inside the popped universe, and
/// the three parts of the split are pairwise disjoint and cover the
/// trimmed universe exactly: the outside-forward part, the
/// forward-minus-component part, and the component itself.
pub proof fn lemma_split_partition(g: GraphSem, u: Set<Seq<bool>>, pivots: Set<Seq<bool>>)
    requires
        pivots.subset_of(u),
    ensures
        ({
            let fw = fwd_reach(g, u, pivots);
            let scc = bwd_reach(g, fw, pivots);
            &&& u.difference(fw).union(fw.difference(scc)).union(scc) == u
            &&& u.difference(fw).disjoint(fw.difference(scc))
            &&& u.difference(fw).disjoint(scc)
            &&& fw.difference(scc).disjoint(scc)
        }),
{
    let fw = fwd_reach(g, u, pivots);
    let scc = bwd_reach(g, fw, pivots);
    lemma_fwd_reach_subset(g, u, pivots);
    lemma_bwd_reach_subset(g, fw, pivots);
    assert(u.difference(fw).union(fw.difference(scc)).union(scc) =~= u);
}

/// A subset missing a member of its superset is a proper subset.
pub proof fn lemma_proper_subset(a: Set<Seq<bool>>, u: Set<Seq<bool>>, p: Seq<bool>)
    requires
        a.subset_of(u),
        u.contains(p),
        !a.contains(p),
    ensures
        a != u,
{
    if a == u {
        assert(a.contains(p));
    }
}

/// Both sub-universes pushed after a split are strict subsets of the
/// popped universe: each one omits every pivot, and each pivot belongs to
/// the component.  With at least one pivot present, neither sub-universe
/// equals the universe it came from.
pub proof fn lemma_split_strict(g: GraphSem, u: Set<Seq<bool>>, pivots: Set<Seq<bool>>)
    requires
        pivots.subset_of(u),
    ensures
        ({
            let fw = fwd_reach(g, u, pivots);
            let scc = bwd_reach(g, fw, pivots);
            &&& u.difference(fw).subset_of(u)
            &&& fw.difference(scc).subset_of(u)
            &&& pivots.subset_of(scc)
            &&& forall|p: Seq<bool>| #[trigger] pivots.contains(p) ==> u.contains(p)
                && !u.difference(fw).contains(p) && !fw.difference(scc).contains(p)
        }),
{
    let fw = fwd_reach(g, u, pivots);
    let scc = bwd_reach(g, fw, pivots);
    lemma_fwd_reach_subset(g, u, pivots);
    lemma_bwd_reach_subset(g, fw, pivots);
    lemma_reach_contains_pivots(g, u, pivots);
    lemma_reach_contains_pivots(g, fw, pivots);
}

/// With at least one pivot, both sub-universes of a split are proper
/// subsets of the popped universe: each omits every pivot.
pub proof fn lemma_split_proper(
    g: GraphSem,
    u: Set<Seq<bool>>,
    pivots: Set<Seq<bool>>,
    p0: Seq<bool>,
)
    requires
        pivots.subset_of(u),
        pivots.contains(p0),
    ensures
        ({
            let fw = fwd_reach(g, u, pivots);
            let scc = bwd_reach(g, fw, pivots);
            &&& u.difference(fw) != u
            &&& fw.difference(scc) != u
        }),
{
    let fw = fwd_reach(g, u, pivots);
    let scc = bwd_reach(g, fw, pivots);
    lemma_split_strict(g, u, pivots);
    lemma_proper_subset(u.difference(fw), u, p0);
    lemma_proper_subset(fw.difference(scc), u, p0);
}

/// Forward reachability from `pivot` inside `universe`, building the stack
/// of breadth-first layers, then walking the stack backward to derive the
/// spine bookkeeping for the next splits.
pub fn skel_forward(
    graph: &SymbolicAsyncGraph,
    universe: &GraphColoredVertices,
    pivot: &GraphColoredVertices,
) -> (res: (GraphColoredVertices, ColoredSpineSet))
    requires
        graph.wf(),
        universe.wf(),
        universe.same_layout(graph@.p, graph@.s),
        pivot.wf(),
        pivot.same_layout(graph@.p, graph@.s),
        pivot@.subset_of(universe@),
    ensures
        res.0.wf(),
        res.0.same_layout(graph@.p, graph@.s),
        res.0@ == fwd_reach(graph@, universe@, pivot@),
        res.1.spine.wf(),
        res.1.spine.same_layout(graph@.p, graph@.s),
        res.1.pivot.wf(),
        res.1.pivot.same_layout(graph@.p, graph@.s),
        res.1.pivot@.subset_of(res.1.spine@),
        res.1.spine@.subset_of(res.0@),
        one_per_color(res.1.pivot@, graph@.p),
        covers_colors(res.1.pivot@, res.0@, graph@.p),
{
    let ghost g = graph@;
    let mut fw = graph.mk_empty_vertices();
    let mut stack: Vec<GraphColoredVertices> = Vec::new();
    let mut layer = pivot.clone();
    proof {
        universe.lemma_wf_props();
        vstd::set_lib::lemma_len_subset(layer@, universe@);
        lemma_reach_contains_pivots(g, universe@, pivot@);
    }
    while !layer.is_empty()
        invariant
            graph.wf(),
            g == graph@,
            universe.wf(),
            universe.same_layout(g.p, g.s),
            pivot.wf(),
            pivot.same_layout(g.p, g.s),
            pivot@.subset_of(universe@),
            fw.wf(),
            fw.same_layout(g.p, g.s),
            layer.wf(),
            layer.same_layout(g.p, g.s),
            fw@.subset_of(universe@),
            layer@.subset_of(universe@),
            layer@.disjoint(fw@),
            pivot@.subset_of(fw@.union(layer@)),
            fw@.subset_of(fwd_reach(g, universe@, pivot@)),
            layer@.subset_of(fwd_reach(g, universe@, pivot@)),
            forall|x: Seq<bool>, y: Seq<bool>|
                #[trigger] fw@.contains(x) && #[trigger] step(g, x, y) && universe@.contains(y)
                    ==> fw@.union(layer@).contains(y),
            forall|i: int|
                0 <= i < stack@.len() ==> (#[trigger] stack@[i]).wf() && stack@[i].same_layout(
                    g.p,
                    g.s,
                ) && stack@[i]@.subset_of(fw@),
            forall|v: Seq<bool>| #[trigger] fw@.contains(v) ==> exists|k: int|
                0 <= k < stack@.len() && (#[trigger] stack@[k])@.contains(v),
        decreases universe@.len() - fw@.len(),
    {
        let new_fw = fw.union(&layer);
        let next_layer = graph.post(&layer).intersect(universe).minus(&new_fw);
        proof {
            universe.lemma_wf_props();
            fw.lemma_wf_props();
            layer.lemma_wf_props();
            lemma_disjoint_union_len(fw@, layer@);
            vstd::set_lib::lemma_len_subset(new_fw@, universe@);
            assert(!layer@.is_empty());
            assert(layer@.len() > 0) by {
                if layer@.len() == 0 {
                    layer@.lemma_len0_is_empty();
                }
            }
            // the frontier property carries to the grown set
            assert forall|x: Seq<bool>, y: Seq<bool>|
                #[trigger] new_fw@.contains(x) && #[trigger] step(g, x, y) && universe@.contains(
                    y,
                ) implies new_fw@.union(next_layer@).contains(y) by {
                if fw@.contains(x) {
                    assert(fw@.union(layer@).contains(y));
                } else {
                    assert(layer@.contains(x) && step(g, x, y));
                    if !new_fw@.contains(y) {
                        assert(crate::semantics::post_sem(g, layer@).contains(y));
                        assert(next_layer@.contains(y));
                    }
                }
            }
            // the new frontier is still forward reachable
            assert forall|y: Seq<bool>| #[trigger] next_layer@.contains(y) implies fwd_reach(
                g,
                universe@,
                pivot@,
            ).contains(y) by {
                reveal(fwd_reach);
                let x = choose|x: Seq<bool>| #[trigger] layer@.contains(x) && step(g, x, y);
                let p2 = choose|p2: Seq<bool>|
                    #[trigger] pivot@.contains(p2) && crate::semantics::reaches_within(
                        g,
                        universe@,
                        p2,
                        x,
                    );
                lemma_reaches_extend(g, universe@, p2, x, y);
                assert(pivot@.contains(p2) && crate::semantics::reaches_within(
                    g,
                    universe@,
                    p2,
                    y,
                ));
            }
        }
        let ghost fw0 = fw@;
        let ghost stack0 = stack@;
        fw = new_fw;
        stack.push(layer);
        layer = next_layer;
        proof {
            // every element of the grown set is recorded on the layer stack
            assert forall|v: Seq<bool>| #[trigger] fw@.contains(v) implies exists|k: int|
                0 <= k < stack@.len() && (#[trigger] stack@[k])@.contains(v) by {
                if fw0.contains(v) {
                    let k = choose|k: int| 0 <= k < stack0.len() && (#[trigger] stack0[k])@.contains(v);
                    assert(stack@[k] == stack0[k]);
                    assert((stack@[k])@.contains(v));
                } else {
                    assert((stack@[stack@.len() - 1])@.contains(v));
                }
            }
            assert forall|i: int| 0 <= i < stack@.len() implies (#[trigger] stack@[i]).wf()
                && stack@[i].same_layout(g.p, g.s) && stack@[i]@.subset_of(fw@) by {
                if i < stack0.len() {
                    assert(stack@[i] == stack0[i]);
                }
            }
        }
    }
    proof {
        // the loop exit gives a closed set holding every pivot
        assert(layer@.is_empty());
        assert(pivot@.subset_of(fw@)) by {
            assert forall|p: Seq<bool>| pivot@.contains(p) implies fw@.contains(p) by {
                assert(fw@.union(layer@).contains(p));
            }
        }
        assert forall|x: Seq<bool>, y: Seq<bool>|
            #[trigger] fw@.contains(x) && #[trigger] step(g, x, y) && universe@.contains(
                y,
            ) implies fw@.contains(y) by {
            assert(fw@.union(layer@).contains(y));
        }
        lemma_fwd_reach_in_closed(g, universe@, pivot@, fw@);
        assert(fw@ =~= fwd_reach(g, universe@, pivot@));
    }
    // walk the layer stack backward, choosing one representative per color
    // and one designated predecessor per layer to seed later splits
    let mut new_spine = graph.mk_empty_vertices();
    let mut new_pivot = graph.mk_empty_vertices();
    while stack.len() > 0
        invariant
            graph.wf(),
            g == graph@,
            fw.wf(),
            fw.same_layout(g.p, g.s),
            new_spine.wf(),
            new_spine.same_layout(g.p, g.s),
            new_pivot.wf(),
            new_pivot.same_layout(g.p, g.s),
            new_pivot@.subset_of(new_spine@),
            new_spine@.subset_of(fw@),
            one_per_color(new_pivot@, g.p),
            forall|i: int|
                0 <= i < stack@.len() ==> (#[trigger] stack@[i]).wf() && stack@[i].same_layout(
                    g.p,
                    g.s,
                ) && stack@[i]@.subset_of(fw@),
            forall|v: Seq<bool>| #[trigger] fw@.contains(v) ==> (exists|k: int|
                0 <= k < stack@.len() && (#[trigger] stack@[k])@.contains(v)) || (exists|
                w: Seq<bool>,
            |
                #[trigger] new_pivot@.contains(w) && color_eq(v, w, g.p)),
        decreases stack@.len(),
    {
        assert(stack@[stack@.len() - 1] == stack@.last());
        let ghost stack0 = stack@;
        let ghost pivot0 = new_pivot@;
        let top = stack.pop().unwrap();
        let not_in_new_pivot = top.minus_colors(&new_pivot.colors());
        let fresh = not_in_new_pivot.pick_vertex();
        new_pivot = new_pivot.union(&fresh);
        let pre_spine = graph.pre(&new_spine).intersect(&top);
        new_spine = new_spine.union(&new_pivot).union(&pre_spine.pick_vertex());
        proof {
            reveal(crate::valuations::color_projection);
            fw.lemma_wf_props();
            top.lemma_wf_props();
            // fresh picks carry colors that had no representative yet, so
            // the pivot set keeps one representative per color
            assert forall|v: Seq<bool>, w: Seq<bool>|
                #[trigger] new_pivot@.contains(v) && #[trigger] new_pivot@.contains(w)
                    && color_eq(v, w, g.p) implies v == w by {
                if pivot0.contains(v) && fresh@.contains(w) {
                    assert(!not_in_new_pivot@.contains(w));
                }
                if fresh@.contains(v) && pivot0.contains(w) {
                    assert(!not_in_new_pivot@.contains(v));
                    assert(color_eq(w, v, g.p));
                }
            }
            // every state of the popped layer now has a same-colored
            // representative
            assert forall|v: Seq<bool>| #[trigger] fw@.contains(v) implies (exists|k: int|
                0 <= k < stack@.len() && (#[trigger] stack@[k])@.contains(v)) || (exists|
                w: Seq<bool>,
            |
                #[trigger] new_pivot@.contains(w) && color_eq(v, w, g.p)) by {
                if exists|w: Seq<bool>| #[trigger] pivot0.contains(w) && color_eq(v, w, g.p) {
                    let w = choose|w: Seq<bool>|
                        #[trigger] pivot0.contains(w) && color_eq(v, w, g.p);
                    assert(new_pivot@.contains(w) && color_eq(v, w, g.p));
                } else {
                    let k = choose|k: int|
                        0 <= k < stack0.len() && (#[trigger] stack0[k])@.contains(v);
                    if k < stack@.len() {
                        assert(stack@[k] == stack0[k]);
                        assert((stack@[k])@.contains(v));
                    } else {
                        assert(top@.contains(v));
                        assert(not_in_new_pivot@.contains(v));
                        let w = choose|w: Seq<bool>|
                            #[trigger] fresh@.contains(w) && color_eq(v, w, g.p);
                        assert(new_pivot@.contains(w) && color_eq(v, w, g.p));
                    }
                }
            }
            assert forall|i: int| 0 <= i < stack@.len() implies (#[trigger] stack@[i]).wf()
                && stack@[i].same_layout(g.p, g.s) && stack@[i]@.subset_of(fw@) by {
                assert(stack@[i] == stack0[i]);
            }
        }
    }
    proof {
        assert forall|v: Seq<bool>| #[trigger] fw@.contains(v) implies exists|w: Seq<bool>|
            #[trigger] new_pivot@.contains(w) && color_eq(v, w, g.p) by {
            assert(stack@.len() == 0);
        }
    }
    let spine_set = ColoredSpineSet { spine: new_spine, pivot: new_pivot };
    (fw, spine_set)
}

/// The backward closure of `pivot` within `within`, grown one predecessor
/// layer at a time.
pub fn bwd_closure(
    graph: &SymbolicAsyncGraph,
    within: &GraphColoredVertices,
    pivot: &GraphColoredVertices,
) -> (r: GraphColoredVertices)
    requires
        graph.wf(),
        within.wf(),
        within.same_layout(graph@.p, graph@.s),
        pivot.wf(),
        pivot.same_layout(graph@.p, graph@.s),
        pivot@.subset_of(within@),
    ensures
        r.wf(),
        r.same_layout(graph@.p, graph@.s),
        r@ == bwd_reach(graph@, within@, pivot@),
{
    let ghost g = graph@;
    let mut sccs = graph.mk_empty_vertices();
    let mut layer = pivot.clone();
    proof {
        lemma_reach_contains_pivots(g, within@, pivot@);
    }
    while !layer.is_empty()
        invariant
            graph.wf(),
            g == graph@,
            within.wf(),
            within.same_layout(g.p, g.s),
            pivot.wf(),
            pivot.same_layout(g.p, g.s),
            pivot@.subset_of(within@),
            sccs.wf(),
            sccs.same_layout(g.p, g.s),
            layer.wf(),
            layer.same_layout(g.p, g.s),
            sccs@.subset_of(within@),
            layer@.subset_of(within@),
            layer@.disjoint(sccs@),
            pivot@.subset_of(sccs@.union(layer@)),
            sccs@.subset_of(bwd_reach(g, within@, pivot@)),
            layer@.subset_of(bwd_reach(g, within@, pivot@)),
            forall|x: Seq<bool>, y: Seq<bool>|
                #[trigger] sccs@.contains(y) && #[trigger] step(g, x, y) && within@.contains(x)
                    ==> sccs@.union(layer@).contains(x),
        decreases within@.len() - sccs@.len(),
    {
        let new_sccs = sccs.union(&layer);
        let next_layer = graph.pre(&layer).intersect(within).minus(&new_sccs);
        proof {
            within.lemma_wf_props();
            sccs.lemma_wf_props();
            layer.lemma_wf_props();
            lemma_disjoint_union_len(sccs@, layer@);
            vstd::set_lib::lemma_len_subset(new_sccs@, within@);
            assert(layer@.len() > 0) by {
                if layer@.len() == 0 {
                    layer@.lemma_len0_is_empty();
                }
            }
            assert forall|x: Seq<bool>, y: Seq<bool>|
                #[trigger] new_sccs@.contains(y) && #[trigger] step(g, x, y) && within@.contains(
                    x,
                ) implies new_sccs@.union(next_layer@).contains(x) by {
                if sccs@.contains(y) {
                    assert(sccs@.union(layer@).contains(x));
                } else {
                    assert(layer@.contains(y) && step(g, x, y));
                    if !new_sccs@.contains(x) {
                        assert(crate::semantics::pre_sem(g, layer@).contains(x));
                        assert(next_layer@.contains(x));
                    }
                }
            }
            assert forall|x: Seq<bool>| #[trigger] next_layer@.contains(x) implies bwd_reach(
                g,
                within@,
                pivot@,
            ).contains(x) by {
                reveal(bwd_reach);
                let y = choose|y: Seq<bool>| #[trigger] layer@.contains(y) && step(g, x, y);
                let p2 = choose|p2: Seq<bool>|
                    #[trigger] pivot@.contains(p2) && crate::semantics::reaches_within(
                        g,
                        within@,
                        y,
                        p2,
                    );
                lemma_reaches_prepend(g, within@, x, y, p2);
                assert(pivot@.contains(p2) && crate::semantics::reaches_within(
                    g,
                    within@,
                    x,
                    p2,
                ));
            }
        }
        sccs = new_sccs;
        layer = next_layer;
    }
    proof {
        assert(pivot@.subset_of(sccs@)) by {
            assert forall|p: Seq<bool>| pivot@.contains(p) implies sccs@.contains(p) by {
                assert(sccs@.union(layer@).contains(p));
            }
        }
        assert forall|x: Seq<bool>, y: Seq<bool>|
            #[trigger] sccs@.contains(y) && #[trigger] step(g, x, y) && within@.contains(
                x,
            ) implies sccs@.contains(x) by {
            assert(sccs@.union(layer@).contains(x));
        }
        lemma_bwd_reach_in_closed(g, within@, pivot@, sccs@);
        assert(sccs@ =~= bwd_reach(g, within@, pivot@));
    }
    sccs
}


/// Together, the two sub-universes of a split are strictly smaller than
/// the universe: they are disjoint and both omit the component member
/// `p0`.
proof fn lemma_children_volume(
    u: Set<Seq<bool>>,
    fw: Set<Seq<bool>>,
    scc: Set<Seq<bool>>,
    p0: Seq<bool>,
)
    requires
        u.finite(),
        fw.subset_of(u),
        scc.subset_of(fw),
        scc.contains(p0),
    ensures
        u.difference(fw).len() + fw.difference(scc).len() < u.len(),
{
    let c1 = u.difference(fw);
    let c2 = fw.difference(scc);
    vstd::set_lib::lemma_len_subset(c1, u);
    vstd::set_lib::lemma_len_subset(c2, u);
    assert(c1.disjoint(c2));
    lemma_disjoint_union_len(c1, c2);
    assert(c1.union(c2) =~= u.difference(scc));
    assert(u.difference(scc).subset_of(u.remove(p0)));
    vstd::set_lib::lemma_len_subset(u.difference(scc), u.remove(p0));
    assert(u.contains(p0));
}

/// Select one pivot per surviving color: keep the spine pivots that the
/// trimmed universe retained, re-derive pivots from the spine for colors
/// that lost theirs in the split, and pick a fresh vertex for every color
/// still without one.
fn select_pivot(
    graph: &SymbolicAsyncGraph,
    universe: &GraphColoredVertices,
    spine_set: &ColoredSpineSet,
) -> (r: GraphColoredVertices)
    requires
        graph.wf(),
        universe.wf(),
        universe.same_layout(graph@.p, graph@.s),
        spine_set.spine.wf(),
        spine_set.spine.same_layout(graph@.p, graph@.s),
        spine_set.pivot.wf(),
        spine_set.pivot.same_layout(graph@.p, graph@.s),
    ensures
        r.wf(),
        r.same_layout(graph@.p, graph@.s),
        r@.subset_of(universe@),
        one_per_color(r@, graph@.p),
        !universe@.is_empty() ==> exists|w: Seq<bool>| #[trigger] r@.contains(w),
{
    let ghost g = graph@;
    let spine = spine_set.spine.intersect(universe);
    let mut pivot = spine_set.pivot.intersect(universe);
    let diff = spine_set.spine.minus(&spine).minus_colors(&pivot.colors());
    pivot = pivot.union(&graph.pre(&diff).intersect(&spine));
    let not_in_skel_pivot = universe.minus_colors(&pivot.colors());
    let picked = not_in_skel_pivot.pick_vertex();
    let ghost pivot_mid = pivot@;
    let candidates = pivot.union(&picked);
    // the spine bookkeeping is meant to hold at most one representative
    // per color; selecting once more keeps exactly one per color and is
    // the identity whenever the bookkeeping already does
    let pivot = candidates.pick_vertex();
    proof {
        reveal(crate::valuations::color_projection);
        if !universe@.is_empty() {
            let v = universe@.choose();
            assert(universe@.contains(v));
            if not_in_skel_pivot@.contains(v) {
                let w = choose|w: Seq<bool>|
                    #[trigger] picked@.contains(w) && color_eq(v, w, g.p);
                assert(candidates@.contains(w));
                let w2 = choose|w2: Seq<bool>|
                    #[trigger] pivot@.contains(w2) && color_eq(w, w2, g.p);
                assert(pivot@.contains(w2));
            } else {
                let w = choose|w: Seq<bool>|
                    #[trigger] pivot_mid.contains(w) && color_eq(v, w, g.p);
                assert(candidates@.contains(w));
                let w2 = choose|w2: Seq<bool>|
                    #[trigger] pivot@.contains(w2) && color_eq(w, w2, g.p);
                assert(pivot@.contains(w2));
            }
        }
    }
    pivot
}

/// When the component layer of a one-per-color pivot set holds nothing
/// beyond the pivots, every cycle of the universe survives wholly inside
/// one of the two sub-universes: a cycle cannot straddle the forward set,
/// cannot straddle the component layer, and cannot hide inside the pivots.
proof fn lemma_linear_cycle_preserved(g: GraphSem, u: Set<Seq<bool>>, pivots: Set<Seq<bool>>)
    requires
        g.wf(),
        crate::bdd_ops::vals_ok(u, g.n()),
        pivots.subset_of(u),
        one_per_color(pivots, g.p),
        bwd_reach(g, fwd_reach(g, u, pivots), pivots).subset_of(pivots),
        has_cycle(g, u),
    ensures
        has_cycle(g, u.difference(fwd_reach(g, u, pivots))) || has_cycle(
            g,
            fwd_reach(g, u, pivots).difference(bwd_reach(g, fwd_reach(g, u, pivots), pivots)),
        ),
{
    let fw = fwd_reach(g, u, pivots);
    let scc = bwd_reach(g, fw, pivots);
    lemma_fwd_reach_subset(g, u, pivots);
    lemma_bwd_reach_subset(g, fw, pivots);
    let pth = choose|pth: Seq<Seq<bool>>|
        #[trigger] is_path_in(g, u, pth) && pth.len() >= 2 && pth[0] == pth[pth.len() - 1];
    if exists|j: int| 0 <= j < pth.len() && fw.contains(#[trigger] pth[j]) {
        let j = choose|j: int| 0 <= j < pth.len() && fw.contains(#[trigger] pth[j]);
        // the forward set is closed under the cycle's steps, so the whole
        // cycle lies inside it
        assert forall|k: int|
            0 <= k < pth.len() - 1 && fw.contains(#[trigger] pth[k]) implies fw.contains(
            pth[k + 1],
        ) by {
            assert(step(g, pth[k], pth[k + 1]));
            assert(u.contains(pth[k + 1]));
            lemma_fwd_reach_step(g, u, pivots, pth[k], pth[k + 1]);
        }
        lemma_cycle_closed_fwd(g, u, pth, fw, j);
        if exists|j2: int| 0 <= j2 < pth.len() && scc.contains(#[trigger] pth[j2]) {
            // the layer is closed under the cycle's steps reversed, so the
            // whole cycle would lie inside the pivots: two consecutive
            // cycle states would be distinct pivots of one color
            let j2 = choose|j2: int| 0 <= j2 < pth.len() && scc.contains(#[trigger] pth[j2]);
            assert forall|k: int|
                0 <= k < pth.len() - 1 && scc.contains(#[trigger] pth[k + 1]) implies scc.contains(
                pth[k],
            ) by {
                assert(step(g, pth[k], pth[k + 1]));
                assert(fw.contains(pth[k]));
                lemma_bwd_reach_step(g, fw, pivots, pth[k], pth[k + 1]);
            }
            lemma_cycle_closed_bwd(g, u, pth, scc, j2);
            assert(pivots.contains(pth[0]) && pivots.contains(pth[1]));
            assert(step(g, pth[0], pth[1]));
            lemma_step_color(g, pth[0], pth[1]);
            lemma_step_distinct(g, pth[0], pth[1]);
            assert(false);
        }
        assert forall|i: int| 0 <= i < pth.len() implies fw.difference(scc).contains(
            #[trigger] pth[i],
        ) by {
            assert(fw.contains(pth[i]));
        }
        assert(is_path_in(g, fw.difference(scc), pth));
        assert(has_cycle(g, fw.difference(scc)));
    } else {
        assert forall|i: int| 0 <= i < pth.len() implies u.difference(fw).contains(
            #[trigger] pth[i],
        ) by {
            assert(u.contains(pth[i]));
        }
        assert(is_path_in(g, u.difference(fw), pth));
        assert(has_cycle(g, u.difference(fw)));
    }
}

/// One pass of the spine variant over a trimmed, non-empty universe:
/// select one pivot per color, grow the forward set and the component,
/// record the non-trivial colors, and hand back the two sub-universes
/// with their spine data.  Together the two sub-universes are strictly
/// smaller than the universe they split.
#[verifier::rlimit(50)]
fn process_universe(
    graph: &SymbolicAsyncGraph,
    universe: &GraphColoredVertices,
    spine_set: ColoredSpineSet,
    counter: &mut Counter,
) -> (res: (GraphColoredVertices, ColoredSpineSet, GraphColoredVertices, ColoredSpineSet))
    requires
        graph.wf(),
        universe.wf(),
        universe.same_layout(graph@.p, graph@.s),
        !universe@.is_empty(),
        spine_set.spine.wf(),
        spine_set.spine.same_layout(graph@.p, graph@.s),
        spine_set.pivot.wf(),
        spine_set.pivot.same_layout(graph@.p, graph@.s),
    ensures
        res.0.wf() && res.0.same_layout(graph@.p, graph@.s) && res.0@.subset_of(universe@),
        res.2.wf() && res.2.same_layout(graph@.p, graph@.s) && res.2@.subset_of(universe@),
        res.0@.len() + res.2@.len() < universe@.len(),
        res.1.spine.wf() && res.1.spine.same_layout(graph@.p, graph@.s),
        res.1.pivot.wf() && res.1.pivot.same_layout(graph@.p, graph@.s),
        res.3.spine.wf() && res.3.spine.same_layout(graph@.p, graph@.s),
        res.3.pivot.wf() && res.3.pivot.same_layout(graph@.p, graph@.s),
        old(counter)@.len() <= final(counter)@.len() <= old(counter)@.len() + 1,
        has_cycle(graph@, universe@) ==> final(counter)@.len() > old(counter)@.len()
            || has_cycle(graph@, res.0@) || has_cycle(graph@, res.2@),
{
    let ghost g = graph@;
    let spine = spine_set.spine.intersect(universe);
    let pivot = select_pivot(graph, universe, &spine_set);
    let (fw, fw_spine_set) = skel_forward(graph, universe, &pivot);
    proof {
        lemma_fwd_reach_subset(g, universe@, pivot@);
        lemma_reach_contains_pivots(g, universe@, pivot@);
    }
    let sccs = bwd_closure(graph, &fw, &pivot);
    proof {
        lemma_bwd_reach_subset(g, fw@, pivot@);
        lemma_reach_contains_pivots(g, fw@, pivot@);
    }
    let non_pivot_states = sccs.minus(&pivot);
    let non_trivial_colors = non_pivot_states.colors();
    let recorded = !non_trivial_colors.is_empty();
    if recorded {
        counter.push(&non_trivial_colors);
    }
    // first sub-universe: everything outside the forward set
    let new_universe = universe.minus(&fw);
    let new_spine = spine.minus(&sccs);
    let new_pivot = graph.pre(&sccs.intersect(&spine)).intersect(&new_spine);
    let new_spine_set = ColoredSpineSet { spine: new_spine, pivot: new_pivot };
    // second sub-universe: the forward set without the component
    let new_universe2 = fw.minus(&sccs);
    let new_spine_set2 = ColoredSpineSet {
        spine: fw_spine_set.spine.minus(&sccs),
        pivot: fw_spine_set.pivot.minus(&sccs),
    };
    proof {
        universe.lemma_wf_props();
        let p0 = choose|p0: Seq<bool>| #[trigger] pivot@.contains(p0);
        assert(sccs@.contains(p0));
        lemma_children_volume(universe@, fw@, sccs@, p0);
        if !recorded {
            // an empty color projection means an empty set: the component
            // layer holds nothing beyond the pivots
            non_pivot_states.lemma_wf_props();
            crate::valuations::lemma_color_projection_empty_iff(non_pivot_states@, g.p, g.n());
            assert(non_pivot_states@.is_empty());
            assert(sccs@.subset_of(pivot@)) by {
                assert forall|v: Seq<bool>| sccs@.contains(v) implies pivot@.contains(v) by {
                    if !pivot@.contains(v) {
                        assert(non_pivot_states@.contains(v));
                    }
                }
            }
            if has_cycle(g, universe@) {
                graph.lemma_wf_sem();
                lemma_linear_cycle_preserved(g, universe@, pivot@);
            }
        }
    }
    (new_universe, new_spine_set, new_universe2, new_spine_set2)
}

/// SCC decomposition, spine variant: a single forward breadth-first
/// search per pass, with the layer stack reused to seed the pivots of the
/// two sub-searches.  Returns the number of non-trivial color-labeled
/// components recorded: zero exactly when the unit set trims to nothing,
/// since a surviving cycle always yields at least one recorded component.
pub fn find_sccs(graph: &SymbolicAsyncGraph) -> (r: usize)
    requires
        graph.wf(),
    ensures
        r == 0 <==> trim_sem(graph@, graph@.unit).is_empty(),
        !has_cycle(graph@, graph@.unit) ==> r == 0,
{
    proof {
        graph.lemma_wf_sem();
        if !has_cycle(graph@, graph@.unit) {
            lemma_trim_acyclic_empty(graph@, graph@.unit);
        }
    }
    let ghost g = graph@;
    let mut counter = Counter::new(graph);
    let vertices = graph.mk_unit_colored_vertices();
    let spine_set = ColoredSpineSet {
        spine: graph.mk_empty_vertices(),
        pivot: graph.mk_empty_vertices(),
    };
    let mut universes: Vec<(GraphColoredVertices, ColoredSpineSet)> = Vec::new();
    universes.push((vertices, spine_set));
    proof {
        if has_cycle(g, g.unit) {
            assert(has_cycle(g, (universes@[0]).0@));
        }
    }
    while universes.len() > 0
        invariant
            graph.wf(),
            g == graph@,
            trim_sem(g, g.unit).is_empty() ==> counter@.len() == 0,
            counter@.len() == 0 ==> (!has_cycle(g, g.unit) || exists|k: int|
                0 <= k < universes@.len() && has_cycle(g, (#[trigger] universes@[k]).0@)),
            forall|k: int|
                0 <= k < universes@.len() ==> {
                    let e = #[trigger] universes@[k];
                    &&& e.0.wf()
                    &&& e.0.same_layout(g.p, g.s)
                    &&& e.0@.subset_of(g.unit)
                    &&& e.1.spine.wf()
                    &&& e.1.spine.same_layout(g.p, g.s)
                    &&& e.1.pivot.wf()
                    &&& e.1.pivot.same_layout(g.p, g.s)
                },
        decreases 2 * stack_volume(universes@) + universes@.len(),
    {
        let ghost stack0 = universes@;
        let ghost m0 = 2 * stack_volume(stack0) + stack0.len();
        let ghost count0 = counter@.len();
        assert(stack0[stack0.len() - 1] == stack0.last());
        let (universe, spine_set) = universes.pop().unwrap();
        proof {
            assert(stack_volume(stack0) == universe@.len() + stack_volume(universes@));
            universe.lemma_wf_props();
        }
        let ghost popped = universe@;
        let universe = trim(graph, universe);
        proof {
            universe.lemma_wf_props();
            lemma_trim_sem_subset(g, popped);
            vstd::set_lib::lemma_len_subset(universe@, popped);
            if trim_sem(g, g.unit).is_empty() {
                lemma_trim_sem_monotone(g, popped, g.unit);
                assert(universe@.subset_of(trim_sem(g, g.unit)));
                assert(universe@ =~= Set::<Seq<bool>>::empty());
            }
        }
        if !universe.is_empty() {
            proof {
                if trim_sem(g, g.unit).is_empty() {
                    assert(universe@.contains(universe@.choose()));
                }
            }
            let (child1, spine1, child2, spine2) = process_universe(
                graph,
                &universe,
                spine_set,
                &mut counter,
            );
            proof {
                vstd::set_lib::lemma_len_subset(child1@, universe@);
                vstd::set_lib::lemma_len_subset(child2@, universe@);
            }
            let ghost stack_a = universes@;
            if !child1.is_empty() {
                universes.push((child1, spine1));
                proof {
                    lemma_stack_volume_push(stack_a, universes@.last());
                }
            }
            let ghost stack_b = universes@;
            if !child2.is_empty() {
                universes.push((child2, spine2));
                proof {
                    lemma_stack_volume_push(stack_b, universes@.last());
                }
            }
            proof {
                assert(2 * stack_volume(universes@) + universes@.len() < m0);
                // a cycle known to the worklist is never lost: it was
                // recorded, it survives in a pushed sub-universe, or it
                // sat in another worklist entry all along
                if counter@.len() == 0 && has_cycle(g, g.unit) {
                    assert(count0 == 0);
                    let k = choose|k: int|
                        0 <= k < stack0.len() && has_cycle(g, (#[trigger] stack0[k]).0@);
                    if k < stack0.len() - 1 {
                        assert(universes@[k] == stack0[k]);
                        assert(has_cycle(g, (universes@[k]).0@));
                    } else {
                        lemma_cycle_in_trim(g, popped);
                        assert(has_cycle(g, universe@));
                        if has_cycle(g, child1@) {
                            lemma_has_cycle_nonempty(g, child1@);
                            let ghost k1 = stack_a.len() as int;
                            assert(universes@[k1] == (child1, spine1));
                            assert(has_cycle(g, (universes@[k1]).0@));
                        } else {
                            assert(has_cycle(g, child2@));
                            lemma_has_cycle_nonempty(g, child2@);
                            let ghost k2 = universes@.len() - 1;
                            assert(universes@[k2] == (child2, spine2));
                            assert(has_cycle(g, (universes@[k2]).0@));
                        }
                    }
                }
            }
        } else {
            proof {
                // an entry that trims to nothing held no cycle, so any
                // witness entry is still on the worklist
                if counter@.len() == 0 && has_cycle(g, g.unit) {
                    let k = choose|k: int|
                        0 <= k < stack0.len() && has_cycle(g, (#[trigger] stack0[k]).0@);
                    if k == stack0.len() - 1 {
                        lemma_cycle_in_trim(g, popped);
                        assert(!universe@.is_empty());
                    }
                    assert(universes@[k] == stack0[k]);
                    assert(has_cycle(g, (universes@[k]).0@));
                }
            }
        }
    }
    proof {
        if counter@.len() == 0 {
            if has_cycle(g, g.unit) {
                assert(false);
            }
            lemma_trim_acyclic_empty(g, g.unit);
        }
    }
    counter.len()
}


/// Two disjoint subsets of `u` that both omit the member `p0` are
/// together strictly smaller than `u`.
proof fn lemma_split_smaller(
    u: Set<Seq<bool>>,
    c1: Set<Seq<bool>>,
    c2: Set<Seq<bool>>,
    p0: Seq<bool>,
)
    requires
        u.finite(),
        c1.subset_of(u),
        c2.subset_of(u),
        c1.disjoint(c2),
        u.contains(p0),
        !c1.contains(p0),
        !c2.contains(p0),
    ensures
        c1.len() + c2.len() < u.len(),
{
    vstd::set_lib::lemma_len_subset(c1, u);
    vstd::set_lib::lemma_len_subset(c2, u);
    lemma_disjoint_union_len(c1, c2);
    assert(c1.union(c2).subset_of(u.remove(p0)));
    vstd::set_lib::lemma_len_subset(c1.union(c2), u.remove(p0));
}

/// The reachability discipline of one decomposition pass: plain lockstep
/// grows the forward and backward sets one whole-graph step per round,
/// while the saturated variant applies per-variable steps in reverse
/// variable order until no variable fires, before giving up a round.
/// Observable results are identical; saturation only reuses shared
/// diagram structure.
#[derive(Clone, Copy, PartialEq, Eq, Structural, Debug)]
pub enum ReachStrategy {
    Lockstep,
    LockstepSaturation,
}

/// Within `u`, no transition leaving a `marked` member of `fwd` leaves
/// `fwd`: the forward search is finished for the marked part.
pub open spec fn fwd_complete_for(
    g: GraphSem,
    u: Set<Seq<bool>>,
    fwd: Set<Seq<bool>>,
    marked: Set<Seq<bool>>,
) -> bool {
    forall|x: Seq<bool>, y: Seq<bool>|
        #[trigger] fwd.contains(x) && #[trigger] step(g, x, y) && marked.contains(x)
            && u.contains(y) ==> fwd.contains(y)
}

/// Within `u`, no transition into a `marked` member of `bwd` starts
/// outside `bwd`: the backward search is finished for the marked part.
pub open spec fn bwd_complete_for(
    g: GraphSem,
    u: Set<Seq<bool>>,
    bwd: Set<Seq<bool>>,
    marked: Set<Seq<bool>>,
) -> bool {
    forall|x: Seq<bool>, y: Seq<bool>|
        #[trigger] bwd.contains(y) && #[trigger] step(g, x, y) && marked.contains(y)
            && u.contains(x) ==> bwd.contains(x)
}

/// Forward completeness survives growth by unmarked states.
proof fn lemma_fwd_complete_grow_set(
    g: GraphSem,
    u: Set<Seq<bool>>,
    fwd0: Set<Seq<bool>>,
    add: Set<Seq<bool>>,
    marked: Set<Seq<bool>>,
)
    requires
        fwd_complete_for(g, u, fwd0, marked),
        forall|v: Seq<bool>| #[trigger] add.contains(v) ==> !marked.contains(v),
    ensures
        fwd_complete_for(g, u, fwd0.union(add), marked),
{
    assert forall|x: Seq<bool>, y: Seq<bool>|
        #[trigger] fwd0.union(add).contains(x) && #[trigger] step(g, x, y) && marked.contains(x)
            && u.contains(y) implies fwd0.union(add).contains(y) by {
        assert(fwd0.contains(x));
        assert(fwd0.contains(y));
    }
}

/// Backward completeness survives growth by unmarked states.
proof fn lemma_bwd_complete_grow_set(
    g: GraphSem,
    u: Set<Seq<bool>>,
    bwd0: Set<Seq<bool>>,
    add: Set<Seq<bool>>,
    marked: Set<Seq<bool>>,
)
    requires
        bwd_complete_for(g, u, bwd0, marked),
        forall|v: Seq<bool>| #[trigger] add.contains(v) ==> !marked.contains(v),
    ensures
        bwd_complete_for(g, u, bwd0.union(add), marked),
{
    assert forall|x: Seq<bool>, y: Seq<bool>|
        #[trigger] bwd0.union(add).contains(y) && #[trigger] step(g, x, y) && marked.contains(y)
            && u.contains(x) implies bwd0.union(add).contains(x) by {
        assert(bwd0.contains(y));
        assert(bwd0.contains(x));
    }
}

/// Backward completeness survives growth of the clipping set by states
/// whose transitions never hit a marked state.
proof fn lemma_bwd_complete_grow_universe(
    g: GraphSem,
    u0: Set<Seq<bool>>,
    add: Set<Seq<bool>>,
    bwd: Set<Seq<bool>>,
    marked: Set<Seq<bool>>,
)
    requires
        bwd_complete_for(g, u0, bwd, marked),
        forall|x: Seq<bool>, y: Seq<bool>|
            add.contains(x) && #[trigger] step(g, x, y) ==> !marked.contains(y),
    ensures
        bwd_complete_for(g, u0.union(add), bwd, marked),
{
    assert forall|x: Seq<bool>, y: Seq<bool>|
        #[trigger] bwd.contains(y) && #[trigger] step(g, x, y) && marked.contains(y)
            && u0.union(add).contains(x) implies bwd.contains(x) by {
        assert(u0.contains(x));
    }
}

/// Forward completeness for two marked sets combines.
proof fn lemma_fwd_complete_marked_union(
    g: GraphSem,
    u: Set<Seq<bool>>,
    fwd: Set<Seq<bool>>,
    m1: Set<Seq<bool>>,
    m2: Set<Seq<bool>>,
)
    requires
        fwd_complete_for(g, u, fwd, m1),
        fwd_complete_for(g, u, fwd, m2),
    ensures
        fwd_complete_for(g, u, fwd, m1.union(m2)),
{
}

/// Forward completeness restricts to any smaller marked set.
proof fn lemma_fwd_complete_marked_subset(
    g: GraphSem,
    u: Set<Seq<bool>>,
    fwd: Set<Seq<bool>>,
    m1: Set<Seq<bool>>,
    m2: Set<Seq<bool>>,
)
    requires
        fwd_complete_for(g, u, fwd, m1),
        m2.subset_of(m1),
    ensures
        fwd_complete_for(g, u, fwd, m2),
{
}

/// Backward completeness for two marked sets combines.
proof fn lemma_bwd_complete_marked_union(
    g: GraphSem,
    u: Set<Seq<bool>>,
    bwd: Set<Seq<bool>>,
    m1: Set<Seq<bool>>,
    m2: Set<Seq<bool>>,
)
    requires
        bwd_complete_for(g, u, bwd, m1),
        bwd_complete_for(g, u, bwd, m2),
    ensures
        bwd_complete_for(g, u, bwd, m1.union(m2)),
{
}

/// Backward completeness restricts to any smaller marked set.
proof fn lemma_bwd_complete_marked_subset(
    g: GraphSem,
    u: Set<Seq<bool>>,
    bwd: Set<Seq<bool>>,
    m1: Set<Seq<bool>>,
    m2: Set<Seq<bool>>,
)
    requires
        bwd_complete_for(g, u, bwd, m1),
        m2.subset_of(m1),
    ensures
        bwd_complete_for(g, u, bwd, m2),
{
}

/// States found by one forward step keep their source's color: they sit
/// in every state-closed color set the sources sat in, and in their own
/// color projection.
proof fn lemma_new_fwd_states_colors(
    g: GraphSem,
    src: Set<Seq<bool>>,
    from_colors: Set<Seq<bool>>,
    nf: Set<Seq<bool>>,
    nfc: Set<Seq<bool>>,
)
    requires
        g.wf(),
        state_closed(from_colors, g.p, g.n()),
        src.subset_of(from_colors),
        forall|v: Seq<bool>| #[trigger] nf.contains(v) ==> post_sem(g, src).contains(v),
        forall|v: Seq<bool>| #[trigger] nf.contains(v) ==> v.len() == g.n(),
        nfc == color_projection(nf, g.p, g.n()),
    ensures
        forall|v: Seq<bool>| #[trigger] nf.contains(v) ==> from_colors.contains(v)
            && nfc.contains(v),
{
    assert forall|v: Seq<bool>| #[trigger] nf.contains(v) implies from_colors.contains(v)
        && nfc.contains(v) by {
        let w = choose|w: Seq<bool>| #[trigger] src.contains(w) && step(g, w, v);
        lemma_step_same_color_set(g, from_colors, w, v);
        crate::valuations::lemma_color_projection_contains_self(nf, g.p, g.n(), v);
    }
}

/// States found by one backward step keep their target's color.
proof fn lemma_new_bwd_states_colors(
    g: GraphSem,
    src: Set<Seq<bool>>,
    from_colors: Set<Seq<bool>>,
    nb: Set<Seq<bool>>,
    nbc: Set<Seq<bool>>,
)
    requires
        g.wf(),
        state_closed(from_colors, g.p, g.n()),
        src.subset_of(from_colors),
        forall|v: Seq<bool>| #[trigger] nb.contains(v) ==> pre_sem(g, src).contains(v),
        forall|v: Seq<bool>| #[trigger] nb.contains(v) ==> v.len() == g.n(),
        nbc == color_projection(nb, g.p, g.n()),
    ensures
        forall|v: Seq<bool>| #[trigger] nb.contains(v) ==> from_colors.contains(v)
            && nbc.contains(v),
{
    assert forall|v: Seq<bool>| #[trigger] nb.contains(v) implies from_colors.contains(v)
        && nbc.contains(v) by {
        let z = choose|z: Seq<bool>| #[trigger] src.contains(z) && step(g, v, z);
        lemma_step_same_color_set(g, from_colors, v, z);
        crate::valuations::lemma_color_projection_contains_self(nb, g.p, g.n(), v);
    }
}

/// One lockstep forward round keeps the forward side complete for the
/// retired colors: old retirees were complete before, the freshly retired
/// colors produced no new states this round, and the added states carry
/// colors still in play.
proof fn lemma_round_fwd_complete(
    g: GraphSem,
    u: Set<Seq<bool>>,
    fwd0: Set<Seq<bool>>,
    rem0: Set<Seq<bool>>,
    df0: Set<Seq<bool>>,
    nf: Set<Seq<bool>>,
    nfc: Set<Seq<bool>>,
)
    requires
        g.wf(),
        state_closed(nfc, g.p, g.n()),
        df0.disjoint(rem0),
        fwd_complete_for(g, u, fwd0, df0),
        nf == post_sem(g, fwd0.intersect(rem0)).intersect(u).difference(fwd0),
        forall|v: Seq<bool>| #[trigger] nf.contains(v) ==> rem0.contains(v) && nfc.contains(v),
    ensures
        fwd_complete_for(g, u, fwd0.union(nf), df0.union(rem0.difference(nfc))),
{
    let fwd1 = fwd0.union(nf);
    let df1 = df0.union(rem0.difference(nfc));
    assert forall|x: Seq<bool>, y: Seq<bool>|
        #[trigger] fwd1.contains(x) && #[trigger] step(g, x, y) && df1.contains(x) && u.contains(
            y,
        ) implies fwd1.contains(y) by {
        if fwd0.contains(x) {
            if df0.contains(x) {
                assert(fwd0.contains(y));
            } else {
                assert(rem0.contains(x) && !nfc.contains(x));
                if !fwd0.contains(y) {
                    assert(fwd0.intersect(rem0).contains(x) && step(g, x, y));
                    assert(post_sem(g, fwd0.intersect(rem0)).contains(y));
                    assert(nf.contains(y));
                    lemma_step_same_color_set(g, nfc, x, y);
                    assert(false);
                }
            }
        } else {
            assert(nf.contains(x));
            assert(false);
        }
    }
}

/// One lockstep round keeps the backward side complete for the colors
/// retired on the backward side, old and new.
proof fn lemma_round_bwd_retired(
    g: GraphSem,
    u: Set<Seq<bool>>,
    proj_u: Set<Seq<bool>>,
    bwd0: Set<Seq<bool>>,
    rem0: Set<Seq<bool>>,
    df0: Set<Seq<bool>>,
    nfc: Set<Seq<bool>>,
    nb: Set<Seq<bool>>,
    nbc: Set<Seq<bool>>,
)
    requires
        g.wf(),
        state_closed(nbc, g.p, g.n()),
        bwd_complete_for(g, u, bwd0, proj_u.difference(df0).difference(rem0)),
        nb == pre_sem(g, bwd0.intersect(rem0.intersect(nfc))).intersect(u).difference(bwd0),
        forall|v: Seq<bool>| #[trigger] nb.contains(v) ==> rem0.intersect(nfc).contains(v)
            && nbc.contains(v),
    ensures
        bwd_complete_for(
            g,
            u,
            bwd0.union(nb),
            proj_u.difference(df0.union(rem0.difference(nfc))).difference(
                rem0.intersect(nfc).intersect(nbc),
            ),
        ),
{
    let rem1 = rem0.intersect(nfc);
    let df1 = df0.union(rem0.difference(nfc));
    let rem2 = rem1.intersect(nbc);
    let bwd1 = bwd0.union(nb);
    let marked0 = proj_u.difference(df0).difference(rem0);
    let marked1 = proj_u.difference(df1).difference(rem2);
    assert forall|x: Seq<bool>, y: Seq<bool>|
        #[trigger] bwd1.contains(y) && #[trigger] step(g, x, y) && marked1.contains(y)
            && u.contains(x) implies bwd1.contains(x) by {
        if bwd0.contains(y) {
            if marked0.contains(y) {
                assert(bwd0.contains(x));
            } else {
                assert(rem0.contains(y));
                assert(nfc.contains(y));
                assert(rem1.contains(y));
                assert(!nbc.contains(y));
                assert(bwd0.intersect(rem1).contains(y) && step(g, x, y));
                assert(pre_sem(g, bwd0.intersect(rem1)).contains(x));
                if !bwd0.contains(x) {
                    assert(nb.contains(x));
                    lemma_step_same_color_set(g, nbc, x, y);
                    assert(false);
                }
            }
        } else {
            assert(nb.contains(y));
            assert(rem1.contains(y) && nbc.contains(y));
            assert(rem2.contains(y));
            assert(false);
        }
    }
}

/// One completion round extends the completed color set: colors whose
/// round produced nothing are finished, and the added states carry colors
/// still on the completion worklist.
proof fn lemma_completion_bwd_step(
    g: GraphSem,
    clip: Set<Seq<bool>>,
    bwd0: Set<Seq<bool>>,
    todo0: Set<Seq<bool>>,
    df: Set<Seq<bool>>,
    nb: Set<Seq<bool>>,
    nbc: Set<Seq<bool>>,
)
    requires
        g.wf(),
        state_closed(nbc, g.p, g.n()),
        bwd_complete_for(g, clip, bwd0, df.difference(todo0)),
        nb == pre_sem(g, bwd0.intersect(todo0)).intersect(clip).difference(bwd0),
        forall|v: Seq<bool>| #[trigger] nb.contains(v) ==> todo0.contains(v) && nbc.contains(v),
    ensures
        bwd_complete_for(g, clip, bwd0.union(nb), df.difference(nbc)),
{
    let bwd1 = bwd0.union(nb);
    assert forall|x: Seq<bool>, y: Seq<bool>|
        #[trigger] bwd1.contains(y) && #[trigger] step(g, x, y) && df.difference(nbc).contains(y)
            && clip.contains(x) implies bwd1.contains(x) by {
        if bwd0.contains(y) {
            if todo0.contains(y) {
                assert(bwd0.intersect(todo0).contains(y) && step(g, x, y));
                assert(pre_sem(g, bwd0.intersect(todo0)).contains(x));
                if !bwd0.contains(x) {
                    assert(nb.contains(x));
                    lemma_step_same_color_set(g, nbc, x, y);
                    assert(false);
                }
            } else {
                assert(df.difference(todo0).contains(y));
                assert(bwd0.contains(x));
            }
        } else {
            assert(nb.contains(y));
            assert(false);
        }
    }
}

/// The forward mirror of `lemma_completion_bwd_step`.
proof fn lemma_completion_fwd_step(
    g: GraphSem,
    clip: Set<Seq<bool>>,
    fwd0: Set<Seq<bool>>,
    todo0: Set<Seq<bool>>,
    db: Set<Seq<bool>>,
    nf: Set<Seq<bool>>,
    nfc: Set<Seq<bool>>,
)
    requires
        g.wf(),
        state_closed(nfc, g.p, g.n()),
        fwd_complete_for(g, clip, fwd0, db.difference(todo0)),
        nf == post_sem(g, fwd0.intersect(todo0)).intersect(clip).difference(fwd0),
        forall|v: Seq<bool>| #[trigger] nf.contains(v) ==> todo0.contains(v) && nfc.contains(v),
    ensures
        fwd_complete_for(g, clip, fwd0.union(nf), db.difference(nfc)),
{
    let fwd1 = fwd0.union(nf);
    assert forall|x: Seq<bool>, y: Seq<bool>|
        #[trigger] fwd1.contains(x) && #[trigger] step(g, x, y) && db.difference(nfc).contains(x)
            && clip.contains(y) implies fwd1.contains(y) by {
        if fwd0.contains(x) {
            if todo0.contains(x) {
                assert(fwd0.intersect(todo0).contains(x) && step(g, x, y));
                assert(post_sem(g, fwd0.intersect(todo0)).contains(y));
                if !fwd0.contains(y) {
                    assert(nf.contains(y));
                    lemma_step_same_color_set(g, nfc, x, y);
                    assert(false);
                }
            } else {
                assert(db.difference(todo0).contains(x));
                assert(fwd0.contains(y));
            }
        } else {
            assert(nf.contains(x));
            assert(false);
        }
    }
}

/// Grow the forward and backward reachable sets of `pivot` inside
/// `universe` in lockstep, one whole-graph step per round and per side,
/// retiring each color from the round-robin as soon as one of its sides
/// stops producing new states, then complete each side for the colors
/// that finished on the other side first, clipped by the other side's
/// final set.  On exit the forward side is complete within the universe
/// for the forward-retired colors and complete within the backward set
/// for the rest, and symmetrically for the backward side.
#[verifier::rlimit(100)]
fn lockstep_reach(
    graph: &SymbolicAsyncGraph,
    universe: &GraphColoredVertices,
    pivot: &GraphColoredVertices,
) -> (res: (GraphColoredVertices, GraphColoredVertices, GraphColors, GraphColors))
    requires
        graph.wf(),
        universe.wf(),
        universe.same_layout(graph@.p, graph@.s),
        pivot.wf(),
        pivot.same_layout(graph@.p, graph@.s),
        pivot@.subset_of(universe@),
    ensures
        res.0.wf() && res.0.same_layout(graph@.p, graph@.s),
        res.1.wf() && res.1.same_layout(graph@.p, graph@.s),
        res.2.wf() && res.2.p() == graph@.p && res.2.s() == graph@.s,
        res.3.wf() && res.3.p() == graph@.p && res.3.s() == graph@.s,
        res.0@.subset_of(universe@),
        res.1@.subset_of(universe@),
        pivot@.subset_of(res.0@),
        pivot@.subset_of(res.1@),
        res.2@.subset_of(color_projection(universe@, graph@.p, graph@.n())),
        res.3@ == color_projection(universe@, graph@.p, graph@.n()).difference(res.2@),
        fwd_complete_for(graph@, universe@, res.0@, res.2@),
        bwd_complete_for(graph@, universe@, res.1@, res.3@),
        bwd_complete_for(graph@, res.0@, res.1@, res.2@),
        fwd_complete_for(graph@, res.1@, res.0@, res.3@),
{
    let ghost g = graph@;
    let ghost proj_u = color_projection(universe@, g.p, g.n());
    let mut fwd = pivot.clone();
    let mut bwd = pivot.clone();
    let mut done_fwd = graph.mk_empty_colors();
    let mut remaining = universe.colors();
    proof {
        graph.lemma_wf_sem();
        universe.lemma_wf_props();
        assert(proj_u.difference(done_fwd@).difference(remaining@) =~= Set::<Seq<bool>>::empty());
    }
    while !remaining.is_empty()
        invariant
            graph.wf(),
            g == graph@,
            proj_u == color_projection(universe@, g.p, g.n()),
            universe.wf(),
            universe.same_layout(g.p, g.s),
            pivot.wf(),
            pivot.same_layout(g.p, g.s),
            pivot@.subset_of(universe@),
            fwd.wf(),
            fwd.same_layout(g.p, g.s),
            bwd.wf(),
            bwd.same_layout(g.p, g.s),
            fwd@.subset_of(universe@),
            bwd@.subset_of(universe@),
            pivot@.subset_of(fwd@),
            pivot@.subset_of(bwd@),
            done_fwd.wf() && done_fwd.p() == g.p && done_fwd.s() == g.s,
            remaining.wf() && remaining.p() == g.p && remaining.s() == g.s,
            done_fwd@.subset_of(proj_u),
            remaining@.subset_of(proj_u),
            done_fwd@.disjoint(remaining@),
            fwd_complete_for(g, universe@, fwd@, done_fwd@),
            bwd_complete_for(
                g,
                universe@,
                bwd@,
                proj_u.difference(done_fwd@).difference(remaining@),
            ),
        decreases (universe@.len() - fwd@.len()) + (universe@.len() - bwd@.len()) + (
        if remaining@.is_empty() {
            0int
        } else {
            1int
        }),
    {
        let ghost fwd0 = fwd@;
        let ghost bwd0 = bwd@;
        let ghost rem0 = remaining@;
        let ghost df0 = done_fwd@;
        proof {
            graph.lemma_wf_sem();
            remaining.lemma_wf_props();
            done_fwd.lemma_wf_props();
        }
        // one forward step for the colors still in the round-robin
        let fsrc = fwd.intersect_colors(&remaining);
        let next_fwd = graph.post(&fsrc).intersect(universe).minus(&fwd);
        let next_fwd_colors = next_fwd.colors();
        proof {
            next_fwd.lemma_wf_props();
            next_fwd_colors.lemma_wf_props();
            // every freshly reached state keeps its source's color, which
            // is still in the round-robin
            lemma_new_fwd_states_colors(g, fsrc@, rem0, next_fwd@, next_fwd_colors@);
        }
        // colors whose forward side just converged leave the round-robin
        done_fwd = done_fwd.union(&remaining.minus(&next_fwd_colors));
        remaining = remaining.intersect(&next_fwd_colors);
        fwd = fwd.union(&next_fwd);
        let ghost rem1 = remaining@;
        let ghost df1 = done_fwd@;
        proof {
            lemma_round_fwd_complete(g, universe@, fwd0, rem0, df0, next_fwd@, next_fwd_colors@);
        }
        // one backward step for the colors still in the round-robin
        let bsrc = bwd.intersect_colors(&remaining);
        let next_bwd = graph.pre(&bsrc).intersect(universe).minus(&bwd);
        let next_bwd_colors = next_bwd.colors();
        proof {
            next_bwd.lemma_wf_props();
            next_bwd_colors.lemma_wf_props();
            remaining.lemma_wf_props();
            lemma_new_bwd_states_colors(g, bsrc@, rem1, next_bwd@, next_bwd_colors@);
        }
        remaining = remaining.intersect(&next_bwd_colors);
        bwd = bwd.union(&next_bwd);
        proof {
            universe.lemma_wf_props();
            vstd::set_lib::lemma_len_subset(fwd@, universe@);
            vstd::set_lib::lemma_len_subset(bwd@, universe@);
            vstd::set_lib::lemma_len_subset(fwd0, universe@);
            vstd::set_lib::lemma_len_subset(bwd0, universe@);
            vstd::set_lib::lemma_len_subset(fwd0, fwd@);
            vstd::set_lib::lemma_len_subset(bwd0, bwd@);
            lemma_round_bwd_retired(
                g,
                universe@,
                proj_u,
                bwd0,
                rem0,
                df0,
                next_fwd_colors@,
                next_bwd@,
                next_bwd_colors@,
            );
            // termination: either a side grew or the round-robin emptied
            if next_fwd@.is_empty() {
                crate::valuations::lemma_color_projection_empty_iff(next_fwd@, g.p, g.n());
                assert(next_fwd_colors@ =~= Set::<Seq<bool>>::empty());
                assert(rem1 =~= Set::<Seq<bool>>::empty());
                assert(fwd@ =~= fwd0);
                assert forall|v: Seq<bool>| !(#[trigger] next_bwd@.contains(v)) by {
                    if next_bwd@.contains(v) {
                        assert(rem1.contains(v));
                    }
                }
                assert(remaining@ =~= Set::<Seq<bool>>::empty());
                assert(bwd@ =~= bwd0);
                assert(fwd@.len() == fwd0.len() && bwd@.len() == bwd0.len());
            } else {
                assert(next_fwd@.len() > 0) by {
                    if next_fwd@.len() == 0 {
                        next_fwd@.lemma_len0_is_empty();
                    }
                }
                lemma_disjoint_union_len(fwd0, next_fwd@);
            }
        }
    }
    // every color not converged forward converged backward first
    let done_bwd = universe.colors().minus(&done_fwd);
    let ghost df_set = done_fwd@;
    let ghost db_set = done_bwd@;
    proof {
        assert(db_set == proj_u.difference(df_set));
        assert(proj_u.difference(df_set).difference(remaining@) =~= db_set);
        assert(df_set.difference(done_fwd@) =~= Set::<Seq<bool>>::empty());
    }
    // complete the backward side for the forward-converged colors,
    // clipped to the forward set
    let mut todo_bwd = done_fwd.clone();
    while !todo_bwd.is_empty()
        invariant
            graph.wf(),
            g == graph@,
            universe.wf(),
            universe.same_layout(g.p, g.s),
            fwd.wf(),
            fwd.same_layout(g.p, g.s),
            bwd.wf(),
            bwd.same_layout(g.p, g.s),
            fwd@.subset_of(universe@),
            bwd@.subset_of(universe@),
            pivot@.subset_of(bwd@),
            done_fwd.wf() && done_fwd.p() == g.p && done_fwd.s() == g.s,
            done_fwd@ == df_set,
            todo_bwd.wf() && todo_bwd.p() == g.p && todo_bwd.s() == g.s,
            todo_bwd@.subset_of(df_set),
            db_set.disjoint(df_set),
            bwd_complete_for(g, universe@, bwd@, db_set),
            bwd_complete_for(g, fwd@, bwd@, df_set.difference(todo_bwd@)),
        decreases (universe@.len() - bwd@.len()) + (
        if todo_bwd@.is_empty() {
            0int
        } else {
            1int
        }),
    {
        let ghost bwd0 = bwd@;
        let ghost todo0 = todo_bwd@;
        proof {
            graph.lemma_wf_sem();
            done_fwd.lemma_wf_props();
            todo_bwd.lemma_wf_props();
        }
        let bsrc = bwd.intersect_colors(&todo_bwd);
        let next_bwd = graph.pre(&bsrc).intersect(&fwd).minus(&bwd);
        let next_bwd_colors = next_bwd.colors();
        proof {
            next_bwd.lemma_wf_props();
            next_bwd_colors.lemma_wf_props();
            lemma_new_bwd_states_colors(g, bsrc@, todo0, next_bwd@, next_bwd_colors@);
        }
        todo_bwd = next_bwd_colors;
        bwd = bwd.union(&next_bwd);
        proof {
            universe.lemma_wf_props();
            vstd::set_lib::lemma_len_subset(bwd@, universe@);
            vstd::set_lib::lemma_len_subset(bwd0, universe@);
            vstd::set_lib::lemma_len_subset(bwd0, bwd@);
            // the new worklist colors all come from the old ones
            crate::valuations::lemma_color_projection_bound(next_bwd@, todo0, g.p, g.n());
            lemma_completion_bwd_step(
                g,
                fwd@,
                bwd0,
                todo0,
                df_set,
                next_bwd@,
                next_bwd_colors@,
            );
            assert forall|v: Seq<bool>| #[trigger] next_bwd@.contains(v) implies !db_set.contains(
                v,
            ) by {
                assert(todo0.contains(v));
                assert(df_set.contains(v));
            }
            lemma_bwd_complete_grow_set(g, universe@, bwd0, next_bwd@, db_set);
            // termination
            if next_bwd@.is_empty() {
                crate::valuations::lemma_color_projection_empty_iff(next_bwd@, g.p, g.n());
                assert(todo_bwd@.is_empty());
                assert(bwd@ =~= bwd0);
                assert(bwd@.len() == bwd0.len());
            } else {
                assert(next_bwd@.len() > 0) by {
                    if next_bwd@.len() == 0 {
                        next_bwd@.lemma_len0_is_empty();
                    }
                }
                lemma_disjoint_union_len(bwd0, next_bwd@);
            }
        }
    }
    // complete the forward side for the backward-converged colors,
    // clipped to the backward set
    let mut todo_fwd = done_bwd.clone();
    proof {
        assert(db_set.difference(todo_fwd@) =~= Set::<Seq<bool>>::empty());
        assert(df_set.difference(todo_bwd@) =~= df_set);
    }
    while !todo_fwd.is_empty()
        invariant
            graph.wf(),
            g == graph@,
            universe.wf(),
            universe.same_layout(g.p, g.s),
            fwd.wf(),
            fwd.same_layout(g.p, g.s),
            bwd.wf(),
            bwd.same_layout(g.p, g.s),
            fwd@.subset_of(universe@),
            bwd@.subset_of(universe@),
            pivot@.subset_of(fwd@),
            done_bwd.wf() && done_bwd.p() == g.p && done_bwd.s() == g.s,
            done_bwd@ == db_set,
            todo_fwd.wf() && todo_fwd.p() == g.p && todo_fwd.s() == g.s,
            todo_fwd@.subset_of(db_set),
            db_set.disjoint(df_set),
            fwd_complete_for(g, universe@, fwd@, df_set),
            bwd_complete_for(g, universe@, bwd@, db_set),
            bwd_complete_for(g, fwd@, bwd@, df_set),
            fwd_complete_for(g, bwd@, fwd@, db_set.difference(todo_fwd@)),
        decreases (universe@.len() - fwd@.len()) + (
        if todo_fwd@.is_empty() {
            0int
        } else {
            1int
        }),
    {
        let ghost fwd0 = fwd@;
        let ghost todo0 = todo_fwd@;
        proof {
            graph.lemma_wf_sem();
            done_bwd.lemma_wf_props();
            todo_fwd.lemma_wf_props();
        }
        let fsrc = fwd.intersect_colors(&todo_fwd);
        let next_fwd = graph.post(&fsrc).intersect(&bwd).minus(&fwd);
        let next_fwd_colors = next_fwd.colors();
        proof {
            next_fwd.lemma_wf_props();
            next_fwd_colors.lemma_wf_props();
            lemma_new_fwd_states_colors(g, fsrc@, todo0, next_fwd@, next_fwd_colors@);
        }
        todo_fwd = next_fwd_colors;
        fwd = fwd.union(&next_fwd);
        proof {
            universe.lemma_wf_props();
            done_bwd.lemma_wf_props();
            vstd::set_lib::lemma_len_subset(fwd@, universe@);
            vstd::set_lib::lemma_len_subset(fwd0, universe@);
            vstd::set_lib::lemma_len_subset(fwd0, fwd@);
            crate::valuations::lemma_color_projection_bound(next_fwd@, todo0, g.p, g.n());
            lemma_completion_fwd_step(
                g,
                bwd@,
                fwd0,
                todo0,
                db_set,
                next_fwd@,
                next_fwd_colors@,
            );
            assert forall|v: Seq<bool>| #[trigger] next_fwd@.contains(v) implies !df_set.contains(
                v,
            ) by {
                assert(todo0.contains(v));
                assert(db_set.contains(v));
            }
            lemma_fwd_complete_grow_set(g, universe@, fwd0, next_fwd@, df_set);
            // the grown forward set never reaches a forward-retired color
            assert forall|x: Seq<bool>, y: Seq<bool>|
                next_fwd@.contains(x) && #[trigger] step(g, x, y) implies !df_set.contains(y) by {
                lemma_step_same_color_set(g, db_set, x, y);
            }
            lemma_bwd_complete_grow_universe(g, fwd0, next_fwd@, bwd@, df_set);
            // termination
            if next_fwd@.is_empty() {
                crate::valuations::lemma_color_projection_empty_iff(next_fwd@, g.p, g.n());
                assert(todo_fwd@.is_empty());
                assert(fwd@ =~= fwd0);
                assert(fwd@.len() == fwd0.len());
            } else {
                assert(next_fwd@.len() > 0) by {
                    if next_fwd@.len() == 0 {
                        next_fwd@.lemma_len0_is_empty();
                    }
                }
                lemma_disjoint_union_len(fwd0, next_fwd@);
            }
        }
    }
    proof {
        assert(db_set.difference(todo_fwd@) =~= db_set);
    }
    (fwd, bwd, done_fwd, done_bwd)
}

/// The saturated variant of `lockstep_reach`: each forward or backward
/// round applies per-variable steps in reverse variable order, re-trying
/// while any variable produces new states for the active colors, before
/// declaring the round finished.  The contract is the same: each side is
/// complete within the universe for its retired colors and complete
/// within the other side's final set for the rest.
#[verifier::rlimit(50)]
fn saturation_reach(
    graph: &SymbolicAsyncGraph,
    universe: &GraphColoredVertices,
    pivot: &GraphColoredVertices,
) -> (res: (GraphColoredVertices, GraphColoredVertices, GraphColors, GraphColors))
    requires
        graph.wf(),
        universe.wf(),
        universe.same_layout(graph@.p, graph@.s),
        pivot.wf(),
        pivot.same_layout(graph@.p, graph@.s),
        pivot@.subset_of(universe@),
    ensures
        res.0.wf() && res.0.same_layout(graph@.p, graph@.s),
        res.1.wf() && res.1.same_layout(graph@.p, graph@.s),
        res.2.wf() && res.2.p() == graph@.p && res.2.s() == graph@.s,
        res.3.wf() && res.3.p() == graph@.p && res.3.s() == graph@.s,
        res.0@.subset_of(universe@),
        res.1@.subset_of(universe@),
        pivot@.subset_of(res.0@),
        pivot@.subset_of(res.1@),
        res.2@.subset_of(color_projection(universe@, graph@.p, graph@.n())),
        res.3@ == color_projection(universe@, graph@.p, graph@.n()).difference(res.2@),
        fwd_complete_for(graph@, universe@, res.0@, res.2@),
        bwd_complete_for(graph@, universe@, res.1@, res.3@),
        bwd_complete_for(graph@, res.0@, res.1@, res.2@),
        fwd_complete_for(graph@, res.1@, res.0@, res.3@),
{
    let ghost g = graph@;
    let ghost proj_u = color_projection(universe@, g.p, g.n());
    let mut fwd = pivot.clone();
    let mut bwd = pivot.clone();
    let mut done_fwd = graph.mk_empty_colors();
    let mut remaining = universe.colors();
    proof {
        graph.lemma_wf_sem();
        universe.lemma_wf_props();
        assert(proj_u.difference(done_fwd@).difference(remaining@) =~= Set::<Seq<bool>>::empty());
    }
    while !remaining.is_empty()
        invariant
            graph.wf(),
            g == graph@,
            proj_u == color_projection(universe@, g.p, g.n()),
            universe.wf(),
            universe.same_layout(g.p, g.s),
            pivot.wf(),
            pivot.same_layout(g.p, g.s),
            pivot@.subset_of(universe@),
            fwd.wf(),
            fwd.same_layout(g.p, g.s),
            bwd.wf(),
            bwd.same_layout(g.p, g.s),
            fwd@.subset_of(universe@),
            bwd@.subset_of(universe@),
            pivot@.subset_of(fwd@),
            pivot@.subset_of(bwd@),
            done_fwd.wf() && done_fwd.p() == g.p && done_fwd.s() == g.s,
            remaining.wf() && remaining.p() == g.p && remaining.s() == g.s,
            done_fwd@.subset_of(proj_u),
            remaining@.subset_of(proj_u),
            done_fwd@.disjoint(remaining@),
            fwd_complete_for(g, universe@, fwd@, done_fwd@),
            bwd_complete_for(
                g,
                universe@,
                bwd@,
                proj_u.difference(done_fwd@).difference(remaining@),
            ),
        decreases (universe@.len() - fwd@.len()) + (universe@.len() - bwd@.len()) + (
        if remaining@.is_empty() {
            0int
        } else {
            1int
        }),
    {
        let ghost fwd_h = fwd@;
        let ghost bwd_h = bwd@;
        let ghost rem0 = remaining@;
        let ghost df0 = done_fwd@;
        let ghost marked0 = proj_u.difference(df0).difference(rem0);
        proof {
            graph.lemma_wf_sem();
            universe.lemma_wf_props();
            remaining.lemma_wf_props();
            done_fwd.lemma_wf_props();
        }
        // forward round: try every variable, most significant first,
        // removing each color from the round as soon as it steps
        let mut fwd_to_step = remaining.clone();
        let mut i: u16 = graph.num_vars();
        while i > 0
            invariant
                graph.wf(),
                g == graph@,
                universe.wf(),
                universe.same_layout(g.p, g.s),
                fwd.wf(),
                fwd.same_layout(g.p, g.s),
                fwd@.subset_of(universe@),
                fwd_h.subset_of(fwd@),
                pivot@.subset_of(fwd@),
                fwd_to_step.wf() && fwd_to_step.p() == g.p && fwd_to_step.s() == g.s,
                fwd_to_step@.subset_of(rem0),
                universe@.finite(),
                fwd@.len() == fwd_h.len() ==> fwd_to_step@ == rem0,
                df0.disjoint(rem0),
                fwd_complete_for(g, universe@, fwd@, df0),
                forall|x: Seq<bool>, y: Seq<bool>, j: int|
                    i as int <= j < g.s as int && fwd@.contains(x) && fwd_to_step@.contains(x)
                        && #[trigger] step_via(g, j, x, y) && universe@.contains(y)
                        ==> fwd@.contains(y),
                i <= g.s,
                remaining@ == rem0,
                done_fwd@ == df0,
            decreases i,
        {
            i = i - 1;
            let ghost f0 = fwd@;
            let ghost fts0 = fwd_to_step@;
            proof {
                graph.lemma_wf_sem();
                fwd_to_step.lemma_wf_props();
            }
            let fsrc = fwd.intersect_colors(&fwd_to_step);
            let step_set = graph.var_post(VariableId(i), &fsrc).intersect(universe).minus(&fwd);
            let step_set_colors = step_set.colors();
            proof {
                step_set.lemma_wf_props();
                // the fresh states fire variable `i` from marked states,
                // so they carry marked colors and their own projection
                assert forall|v: Seq<bool>| #[trigger] step_set@.contains(v) implies post_sem(
                    g,
                    fsrc@,
                ).contains(v) by {
                    let w = choose|w: Seq<bool>|
                        #[trigger] fsrc@.contains(w) && step_via(g, i as int, w, v);
                    assert(step(g, w, v));
                    assert(fsrc@.contains(w) && step(g, w, v));
                }
                lemma_new_fwd_states_colors(g, fsrc@, fts0, step_set@, step_set_colors@);
            }
            if !step_set.is_empty() {
                fwd_to_step = fwd_to_step.minus(&step_set_colors);
                fwd = fwd.union(&step_set);
                proof {
                    vstd::set_lib::lemma_len_subset(fwd_h, f0);
                    assert(step_set@.len() > 0) by {
                        if step_set@.len() == 0 {
                            step_set@.lemma_len0_is_empty();
                        }
                    }
                    lemma_disjoint_union_len(f0, step_set@);
                    // additions carry colors still in the round, never
                    // retired ones
                    assert forall|v: Seq<bool>| #[trigger] step_set@.contains(v) implies !df0
                        .contains(v) by {
                        assert(fts0.contains(v));
                        assert(rem0.contains(v));
                    }
                    lemma_fwd_complete_grow_set(g, universe@, f0, step_set@, df0);
                    // additions leave the per-round worklist, so every
                    // marked state of the grown set is an old one
                    assert forall|x: Seq<bool>, y: Seq<bool>, j: int|
                        i as int <= j < g.s as int && fwd@.contains(x) && fwd_to_step@.contains(
                            x,
                        ) && #[trigger] step_via(g, j, x, y) && universe@.contains(
                            y,
                        ) implies fwd@.contains(y) by {
                        assert(!step_set_colors@.contains(x));
                        assert(!step_set@.contains(x));
                        assert(f0.contains(x) && fts0.contains(x));
                        if j > i as int {
                            assert(fwd@.contains(y)) by {
                                assert(f0.contains(y));
                            }
                        } else {
                            assert(fsrc@.contains(x));
                            assert(crate::semantics::var_post_sem(g, i as int, fsrc@).contains(
                                y,
                            ));
                            if !f0.contains(y) {
                                assert(step_set@.contains(y));
                            }
                        }
                    }
                }
            } else {
                proof {
                    assert forall|x: Seq<bool>, y: Seq<bool>, j: int|
                        i as int <= j < g.s as int && fwd@.contains(x) && fwd_to_step@.contains(
                            x,
                        ) && #[trigger] step_via(g, j, x, y) && universe@.contains(
                            y,
                        ) implies fwd@.contains(y) by {
                        if j == i as int {
                            assert(fsrc@.contains(x));
                            assert(crate::semantics::var_post_sem(g, i as int, fsrc@).contains(
                                y,
                            ));
                            if !fwd@.contains(y) {
                                assert(step_set@.contains(y));
                                assert(!step_set@.is_empty());
                            }
                        }
                    }
                }
            }
            if fwd_to_step.is_empty() {
                i = 0;
            }
        }
        // colors that stepped no variable have converged forward
        let ghost fts_final = fwd_to_step@;
        done_fwd = done_fwd.union(&fwd_to_step);
        remaining = remaining.minus(&fwd_to_step);
        let ghost rem1 = remaining@;
        let ghost df1 = done_fwd@;
        proof {
            // the whole-graph closure for the freshly retired colors
            // follows from the per-variable closure of the finished round
            assert forall|x: Seq<bool>, y: Seq<bool>|
                #[trigger] fwd@.contains(x) && #[trigger] step(g, x, y) && fts_final.contains(x)
                    && universe@.contains(y) implies fwd@.contains(y) by {
                let j = choose|j: int| step_via(g, j, x, y);
                assert(0 <= j < g.s as int);
                assert(step_via(g, j, x, y));
            }
            lemma_fwd_complete_marked_union(g, universe@, fwd@, df0, fts_final);
            lemma_fwd_complete_marked_subset(g, universe@, fwd@, df0.union(fts_final), df1);
        }
        // backward round, symmetric
        let mut bwd_to_step = remaining.clone();
        let mut j: u16 = graph.num_vars();
        while j > 0
            invariant
                graph.wf(),
                g == graph@,
                universe.wf(),
                universe.same_layout(g.p, g.s),
                bwd.wf(),
                bwd.same_layout(g.p, g.s),
                bwd@.subset_of(universe@),
                bwd_h.subset_of(bwd@),
                pivot@.subset_of(bwd@),
                bwd_to_step.wf() && bwd_to_step.p() == g.p && bwd_to_step.s() == g.s,
                bwd_to_step@.subset_of(rem1),
                universe@.finite(),
                bwd@.len() == bwd_h.len() ==> bwd_to_step@ == rem1,
                rem1.subset_of(rem0),
                marked0 == proj_u.difference(df0).difference(rem0),
                bwd_complete_for(g, universe@, bwd@, marked0),
                forall|x: Seq<bool>, y: Seq<bool>, k: int|
                    j as int <= k < g.s as int && bwd@.contains(y) && bwd_to_step@.contains(y)
                        && #[trigger] step_via(g, k, x, y) && universe@.contains(x)
                        ==> bwd@.contains(x),
                j <= g.s,
                remaining@ == rem1,
            decreases j,
        {
            j = j - 1;
            let ghost b0 = bwd@;
            let ghost bts0 = bwd_to_step@;
            proof {
                graph.lemma_wf_sem();
                bwd_to_step.lemma_wf_props();
            }
            let bsrc = bwd.intersect_colors(&bwd_to_step);
            let step_set = graph.var_pre(VariableId(j), &bsrc).intersect(universe).minus(&bwd);
            let step_set_colors = step_set.colors();
            proof {
                step_set.lemma_wf_props();
                assert forall|v: Seq<bool>| #[trigger] step_set@.contains(v) implies pre_sem(
                    g,
                    bsrc@,
                ).contains(v) by {
                    let z = choose|z: Seq<bool>|
                        #[trigger] bsrc@.contains(z) && step_via(g, j as int, v, z);
                    assert(step(g, v, z));
                    assert(bsrc@.contains(z) && step(g, v, z));
                }
                lemma_new_bwd_states_colors(g, bsrc@, bts0, step_set@, step_set_colors@);
            }
            if !step_set.is_empty() {
                bwd_to_step = bwd_to_step.minus(&step_set_colors);
                bwd = bwd.union(&step_set);
                proof {
                    vstd::set_lib::lemma_len_subset(bwd_h, b0);
                    assert(step_set@.len() > 0) by {
                        if step_set@.len() == 0 {
                            step_set@.lemma_len0_is_empty();
                        }
                    }
                    lemma_disjoint_union_len(b0, step_set@);
                    // additions carry colors still in the round, never
                    // colors already retired backward
                    assert forall|v: Seq<bool>| #[trigger] step_set@.contains(v) implies !marked0
                        .contains(v) by {
                        assert(bts0.contains(v));
                        assert(rem1.contains(v));
                        assert(rem0.contains(v));
                    }
                    lemma_bwd_complete_grow_set(g, universe@, b0, step_set@, marked0);
                    assert forall|x: Seq<bool>, y: Seq<bool>, k: int|
                        j as int <= k < g.s as int && bwd@.contains(y) && bwd_to_step@.contains(
                            y,
                        ) && #[trigger] step_via(g, k, x, y) && universe@.contains(
                            x,
                        ) implies bwd@.contains(x) by {
                        assert(!step_set_colors@.contains(y));
                        assert(!step_set@.contains(y));
                        assert(b0.contains(y) && bts0.contains(y));
                        if k > j as int {
                            assert(bwd@.contains(x)) by {
                                assert(b0.contains(x));
                            }
                        } else {
                            assert(bsrc@.contains(y));
                            assert(crate::semantics::var_pre_sem(g, j as int, bsrc@).contains(
                                x,
                            ));
                            if !b0.contains(x) {
                                assert(step_set@.contains(x));
                            }
                        }
                    }
                }
            } else {
                proof {
                    assert forall|x: Seq<bool>, y: Seq<bool>, k: int|
                        j as int <= k < g.s as int && bwd@.contains(y) && bwd_to_step@.contains(
                            y,
                        ) && #[trigger] step_via(g, k, x, y) && universe@.contains(
                            x,
                        ) implies bwd@.contains(x) by {
                        if k == j as int {
                            assert(bsrc@.contains(y));
                            assert(crate::semantics::var_pre_sem(g, j as int, bsrc@).contains(
                                x,
                            ));
                            if !bwd@.contains(x) {
                                assert(step_set@.contains(x));
                                assert(!step_set@.is_empty());
                            }
                        }
                    }
                }
            }
            if bwd_to_step.is_empty() {
                j = 0;
            }
        }
        let ghost bts_final = bwd_to_step@;
        remaining = remaining.minus(&bwd_to_step);
        proof {
            universe.lemma_wf_props();
            vstd::set_lib::lemma_len_subset(fwd@, universe@);
            vstd::set_lib::lemma_len_subset(bwd@, universe@);
            vstd::set_lib::lemma_len_subset(fwd_h, universe@);
            vstd::set_lib::lemma_len_subset(bwd_h, universe@);
            vstd::set_lib::lemma_len_subset(fwd_h, fwd@);
            vstd::set_lib::lemma_len_subset(bwd_h, bwd@);
            // the whole-graph closure for the backward-retired colors
            assert forall|x: Seq<bool>, y: Seq<bool>|
                #[trigger] bwd@.contains(y) && #[trigger] step(g, x, y) && bts_final.contains(y)
                    && universe@.contains(x) implies bwd@.contains(x) by {
                let k = choose|k: int| step_via(g, k, x, y);
                assert(0 <= k < g.s as int);
                assert(step_via(g, k, x, y));
            }
            lemma_bwd_complete_marked_union(g, universe@, bwd@, marked0, bts_final);
            // the retired set after the round sits inside the union of the
            // old retirees and this round's stalled colors
            assert(proj_u.difference(done_fwd@).difference(remaining@).subset_of(
                marked0.union(bts_final),
            )) by {
                assert forall|y: Seq<bool>|
                    proj_u.difference(done_fwd@).difference(remaining@).contains(
                        y,
                    ) implies marked0.union(bts_final).contains(y) by {
                    if rem0.contains(y) {
                        assert(!fts_final.contains(y));
                        assert(rem1.contains(y));
                        assert(bts_final.contains(y));
                    }
                }
            }
            lemma_bwd_complete_marked_subset(
                g,
                universe@,
                bwd@,
                marked0.union(bts_final),
                proj_u.difference(done_fwd@).difference(remaining@),
            );
            // termination: if neither side grew, the round-robin emptied
            if fwd@.len() == fwd_h.len() && bwd@.len() == bwd_h.len() {
                assert(fts_final == rem0);
                assert(rem1 =~= Set::<Seq<bool>>::empty());
                assert(bts_final == rem1);
                assert(remaining@ =~= Set::<Seq<bool>>::empty());
            }
        }
    }
    // every color not converged forward converged backward first
    let done_bwd = universe.colors().minus(&done_fwd);
    let ghost df_set = done_fwd@;
    let ghost db_set = done_bwd@;
    proof {
        assert(db_set == proj_u.difference(df_set));
        assert(proj_u.difference(df_set).difference(remaining@) =~= db_set);
    }
    // complete the backward side for the forward-converged colors,
    // saturating inside the forward set
    let mut bwd_continue = bwd.intersect_colors(&done_fwd);
    let ghost bc_init = bwd_continue@;
    loop
        invariant_except_break
            graph.wf(),
            g == graph@,
            universe.wf(),
            universe.same_layout(g.p, g.s),
            fwd.wf(),
            fwd.same_layout(g.p, g.s),
            fwd@.subset_of(universe@),
            bwd_continue.wf(),
            bwd_continue.same_layout(g.p, g.s),
            bwd_continue@.subset_of(universe@),
            bc_init.subset_of(bwd_continue@),
            done_fwd.wf() && done_fwd.p() == g.p && done_fwd.s() == g.s,
            done_fwd@ == df_set,
            forall|v: Seq<bool>| #[trigger] bwd_continue@.contains(v) ==> df_set.contains(v),
            universe@.finite(),
        ensures
            bwd_continue.wf(),
            bwd_continue.same_layout(g.p, g.s),
            bwd_continue@.subset_of(universe@),
            bc_init.subset_of(bwd_continue@),
            forall|v: Seq<bool>| #[trigger] bwd_continue@.contains(v) ==> df_set.contains(v),
            forall|x: Seq<bool>, y: Seq<bool>|
                #[trigger] bwd_continue@.contains(y) && #[trigger] step(g, x, y) && fwd@.contains(
                    x,
                ) ==> bwd_continue@.contains(x),
        decreases universe@.len() - bwd_continue@.len(),
    {
        let ghost bc0 = bwd_continue@;
        let mut progressed = false;
        let mut i: u16 = graph.num_vars();
        while i > 0
            invariant
                graph.wf(),
                g == graph@,
                universe.wf(),
                universe.same_layout(g.p, g.s),
                fwd.wf(),
                fwd.same_layout(g.p, g.s),
                fwd@.subset_of(universe@),
                bwd_continue.wf(),
                bwd_continue.same_layout(g.p, g.s),
                bwd_continue@.subset_of(universe@),
                bc0.subset_of(bwd_continue@),
                bc_init.subset_of(bwd_continue@),
                done_fwd.wf() && done_fwd.p() == g.p && done_fwd.s() == g.s,
                done_fwd@ == df_set,
                forall|v: Seq<bool>| #[trigger] bwd_continue@.contains(v) ==> df_set.contains(v),
                universe@.finite(),
                !progressed ==> bwd_continue@ == bc0,
                progressed ==> bwd_continue@.len() > bc0.len(),
                !progressed ==> (forall|x: Seq<bool>, y: Seq<bool>, k: int|
                    i as int <= k < g.s as int && bwd_continue@.contains(y) && #[trigger] step_via(
                        g,
                        k,
                        x,
                        y,
                    ) && fwd@.contains(x) ==> bwd_continue@.contains(x)),
                i <= g.s,
            decreases i,
        {
            i = i - 1;
            let ghost b0 = bwd_continue@;
            proof {
                graph.lemma_wf_sem();
                done_fwd.lemma_wf_props();
            }
            let step_set = graph.var_pre(VariableId(i), &bwd_continue).intersect(&fwd).minus(
                &bwd_continue,
            );
            proof {
                step_set.lemma_wf_props();
                // fresh states feed a marked target, so they carry a
                // forward-retired color too
                assert forall|v: Seq<bool>| #[trigger] step_set@.contains(v) implies df_set
                    .contains(v) by {
                    let z = choose|z: Seq<bool>|
                        #[trigger] b0.contains(z) && step_via(g, i as int, v, z);
                    assert(step(g, v, z));
                    lemma_step_same_color_set(g, df_set, v, z);
                }
            }
            if !step_set.is_empty() {
                bwd_continue = bwd_continue.union(&step_set);
                proof {
                    vstd::set_lib::lemma_len_subset(bc0, b0);
                    assert(step_set@.len() > 0) by {
                        if step_set@.len() == 0 {
                            step_set@.lemma_len0_is_empty();
                        }
                    }
                    lemma_disjoint_union_len(b0, step_set@);
                }
                progressed = true;
            } else {
                proof {
                    if !progressed {
                        assert forall|x: Seq<bool>, y: Seq<bool>, k: int|
                            i as int <= k < g.s as int && bwd_continue@.contains(y)
                                && #[trigger] step_via(g, k, x, y) && fwd@.contains(
                                x,
                            ) implies bwd_continue@.contains(x) by {
                            if k == i as int {
                                assert(crate::semantics::var_pre_sem(
                                    g,
                                    i as int,
                                    bwd_continue@,
                                ).contains(x));
                                if !bwd_continue@.contains(x) {
                                    assert(step_set@.contains(x));
                                    assert(!step_set@.is_empty());
                                }
                            }
                        }
                    }
                }
            }
        }
        if !progressed {
            proof {
                graph.lemma_wf_sem();
                assert forall|x: Seq<bool>, y: Seq<bool>|
                    #[trigger] bwd_continue@.contains(y) && #[trigger] step(g, x, y)
                        && fwd@.contains(x) implies bwd_continue@.contains(x) by {
                    let k = choose|k: int| step_via(g, k, x, y);
                    assert(0 <= k < g.s as int);
                    assert(step_via(g, k, x, y));
                }
            }
            break;
        }
        proof {
            vstd::set_lib::lemma_len_subset(bwd_continue@, universe@);
        }
    }
    let ghost bwd_before = bwd@;
    bwd = bwd.union(&bwd_continue);
    proof {
        graph.lemma_wf_sem();
        universe.lemma_wf_props();
        // the backward side absorbed its completion: it is now complete
        // within the forward set for the forward-retired colors
        assert forall|x: Seq<bool>, y: Seq<bool>|
            #[trigger] bwd@.contains(y) && #[trigger] step(g, x, y) && df_set.contains(y)
                && fwd@.contains(x) implies bwd@.contains(x) by {
            if bwd_before.contains(y) {
                assert(bc_init.contains(y));
            }
            assert(bwd_continue@.contains(y));
            assert(bwd_continue@.contains(x));
        }
        // and it stays complete within the universe for the
        // backward-retired colors, since the additions are all
        // forward-retired
        assert forall|v: Seq<bool>| #[trigger] bwd_continue@.contains(v) implies !db_set.contains(
            v,
        ) by {
            assert(df_set.contains(v));
        }
        lemma_bwd_complete_grow_set(g, universe@, bwd_before, bwd_continue@, db_set);
        assert(bwd@ == bwd_before.union(bwd_continue@));
    }
    // complete the forward side for the backward-converged colors,
    // saturating inside the backward set
    let mut fwd_continue = fwd.intersect_colors(&done_bwd);
    let ghost fc_init = fwd_continue@;
    loop
        invariant_except_break
            graph.wf(),
            g == graph@,
            universe.wf(),
            universe.same_layout(g.p, g.s),
            bwd.wf(),
            bwd.same_layout(g.p, g.s),
            bwd@.subset_of(universe@),
            fwd_continue.wf(),
            fwd_continue.same_layout(g.p, g.s),
            fwd_continue@.subset_of(universe@),
            fc_init.subset_of(fwd_continue@),
            done_bwd.wf() && done_bwd.p() == g.p && done_bwd.s() == g.s,
            done_bwd@ == db_set,
            forall|v: Seq<bool>| #[trigger] fwd_continue@.contains(v) ==> db_set.contains(v),
            universe@.finite(),
        ensures
            fwd_continue.wf(),
            fwd_continue.same_layout(g.p, g.s),
            fwd_continue@.subset_of(universe@),
            fc_init.subset_of(fwd_continue@),
            forall|v: Seq<bool>| #[trigger] fwd_continue@.contains(v) ==> db_set.contains(v),
            forall|x: Seq<bool>, y: Seq<bool>|
                #[trigger] fwd_continue@.contains(x) && #[trigger] step(g, x, y) && bwd@.contains(
                    y,
                ) ==> fwd_continue@.contains(y),
        decreases universe@.len() - fwd_continue@.len(),
    {
        let ghost fc0 = fwd_continue@;
        let mut progressed = false;
        let mut i: u16 = graph.num_vars();
        while i > 0
            invariant
                graph.wf(),
                g == graph@,
                universe.wf(),
                universe.same_layout(g.p, g.s),
                bwd.wf(),
                bwd.same_layout(g.p, g.s),
                bwd@.subset_of(universe@),
                fwd_continue.wf(),
                fwd_continue.same_layout(g.p, g.s),
                fwd_continue@.subset_of(universe@),
                fc0.subset_of(fwd_continue@),
                fc_init.subset_of(fwd_continue@),
                done_bwd.wf() && done_bwd.p() == g.p && done_bwd.s() == g.s,
                done_bwd@ == db_set,
                forall|v: Seq<bool>| #[trigger] fwd_continue@.contains(v) ==> db_set.contains(v),
                universe@.finite(),
                !progressed ==> fwd_continue@ == fc0,
                progressed ==> fwd_continue@.len() > fc0.len(),
                !progressed ==> (forall|x: Seq<bool>, y: Seq<bool>, k: int|
                    i as int <= k < g.s as int && fwd_continue@.contains(x) && #[trigger] step_via(
                        g,
                        k,
                        x,
                        y,
                    ) && bwd@.contains(y) ==> fwd_continue@.contains(y)),
                i <= g.s,
            decreases i,
        {
            i = i - 1;
            let ghost f0 = fwd_continue@;
            proof {
                graph.lemma_wf_sem();
                done_bwd.lemma_wf_props();
            }
            let step_set = graph.var_post(VariableId(i), &fwd_continue).intersect(&bwd).minus(
                &fwd_continue,
            );
            proof {
                step_set.lemma_wf_props();
                assert forall|v: Seq<bool>| #[trigger] step_set@.contains(v) implies db_set
                    .contains(v) by {
                    let w = choose|w: Seq<bool>|
                        #[trigger] f0.contains(w) && step_via(g, i as int, w, v);
                    assert(step(g, w, v));
                    lemma_step_same_color_set(g, db_set, w, v);
                }
            }
            if !step_set.is_empty() {
                fwd_continue = fwd_continue.union(&step_set);
                proof {
                    vstd::set_lib::lemma_len_subset(fc0, f0);
                    assert(step_set@.len() > 0) by {
                        if step_set@.len() == 0 {
                            step_set@.lemma_len0_is_empty();
                        }
                    }
                    lemma_disjoint_union_len(f0, step_set@);
                }
                progressed = true;
            } else {
                proof {
                    if !progressed {
                        assert forall|x: Seq<bool>, y: Seq<bool>, k: int|
                            i as int <= k < g.s as int && fwd_continue@.contains(x)
                                && #[trigger] step_via(g, k, x, y) && bwd@.contains(
                                y,
                            ) implies fwd_continue@.contains(y) by {
                            if k == i as int {
                                assert(crate::semantics::var_post_sem(
                                    g,
                                    i as int,
                                    fwd_continue@,
                                ).contains(y));
                                if !fwd_continue@.contains(y) {
                                    assert(step_set@.contains(y));
                                    assert(!step_set@.is_empty());
                                }
                            }
                        }
                    }
                }
            }
        }
        if !progressed {
            proof {
                graph.lemma_wf_sem();
                assert forall|x: Seq<bool>, y: Seq<bool>|
                    #[trigger] fwd_continue@.contains(x) && #[trigger] step(g, x, y)
                        && bwd@.contains(y) implies fwd_continue@.contains(y) by {
                    let k = choose|k: int| step_via(g, k, x, y);
                    assert(0 <= k < g.s as int);
                    assert(step_via(g, k, x, y));
                }
            }
            break;
        }
        proof {
            vstd::set_lib::lemma_len_subset(fwd_continue@, universe@);
        }
    }
    let ghost fwd_before = fwd@;
    let fwd = fwd.union(&fwd_continue);
    proof {
        graph.lemma_wf_sem();
        universe.lemma_wf_props();
        done_bwd.lemma_wf_props();
        // the forward side absorbed its completion: complete within the
        // backward set for the backward-retired colors
        assert forall|x: Seq<bool>, y: Seq<bool>|
            #[trigger] fwd@.contains(x) && #[trigger] step(g, x, y) && db_set.contains(x)
                && bwd@.contains(y) implies fwd@.contains(y) by {
            if fwd_before.contains(x) {
                assert(fc_init.contains(x));
            }
            assert(fwd_continue@.contains(x));
            assert(fwd_continue@.contains(y));
        }
        // forward completeness within the universe for forward-retired
        // colors survives, since additions are backward-retired
        assert forall|v: Seq<bool>| #[trigger] fwd_continue@.contains(v) implies !df_set.contains(
            v,
        ) by {
            assert(db_set.contains(v));
        }
        lemma_fwd_complete_grow_set(g, universe@, fwd_before, fwd_continue@, df_set);
        assert(fwd@ == fwd_before.union(fwd_continue@));
        // backward completeness within the grown forward set survives:
        // the added forward states never step into a forward-retired
        // color
        assert forall|x: Seq<bool>, y: Seq<bool>|
            fwd_continue@.contains(x) && #[trigger] step(g, x, y) implies !df_set.contains(y) by {
            lemma_step_same_color_set(g, db_set, x, y);
        }
        lemma_bwd_complete_grow_universe(g, fwd_before, fwd_continue@, bwd@, df_set);
    }
    (fwd, bwd, done_fwd, done_bwd)
}

/// When the component layer of a one-per-color pivot set holds nothing
/// beyond the pivots, every cycle of the universe survives wholly inside
/// one of the two lockstep sub-universes.  A cycle keeps one color, so it
/// falls under one side's completed color set; completeness keeps it from
/// straddling that side's final set, and a cycle inside both sides would
/// put two distinct states of one color into the pivots.
proof fn lemma_lockstep_cycle_preserved(
    g: GraphSem,
    u: Set<Seq<bool>>,
    pivots: Set<Seq<bool>>,
    fwd: Set<Seq<bool>>,
    bwd: Set<Seq<bool>>,
    dfc: Set<Seq<bool>>,
    dbc: Set<Seq<bool>>,
)
    requires
        g.wf(),
        crate::bdd_ops::vals_ok(u, g.n()),
        state_closed(dfc, g.p, g.n()),
        state_closed(dbc, g.p, g.n()),
        one_per_color(pivots, g.p),
        fwd.subset_of(u),
        bwd.subset_of(u),
        dbc == color_projection(u, g.p, g.n()).difference(dfc),
        fwd_complete_for(g, u, fwd, dfc),
        bwd_complete_for(g, u, bwd, dbc),
        bwd_complete_for(g, fwd, bwd, dfc),
        fwd_complete_for(g, bwd, fwd, dbc),
        fwd.intersect(bwd).subset_of(pivots),
        has_cycle(g, u),
    ensures
        ({
            let scc = fwd.intersect(bwd);
            let converged = fwd.intersect(dfc).union(bwd.intersect(dbc)).difference(scc);
            let rest = u.difference(converged).difference(scc);
            has_cycle(g, rest) || has_cycle(g, converged)
        }),
{
    let scc = fwd.intersect(bwd);
    let converged = fwd.intersect(dfc).union(bwd.intersect(dbc)).difference(scc);
    let rest = u.difference(converged).difference(scc);
    let pth = choose|pth: Seq<Seq<bool>>|
        #[trigger] is_path_in(g, u, pth) && pth.len() >= 2 && pth[0] == pth[pth.len() - 1];
    // the cycle keeps one color, so its membership in either completed
    // color set is uniform
    assert forall|k: int|
        0 <= k < pth.len() - 1 && dfc.contains(#[trigger] pth[k]) implies dfc.contains(
        pth[k + 1],
    ) by {
        lemma_step_same_color_set(g, dfc, pth[k], pth[k + 1]);
    }
    assert forall|k: int|
        0 <= k < pth.len() - 1 && dbc.contains(#[trigger] pth[k]) implies dbc.contains(
        pth[k + 1],
    ) by {
        lemma_step_same_color_set(g, dbc, pth[k], pth[k + 1]);
    }
    if dfc.contains(pth[0]) {
        lemma_cycle_closed_fwd(g, u, pth, dfc, 0);
        if exists|j: int| 0 <= j < pth.len() && fwd.contains(#[trigger] pth[j]) {
            let j = choose|j: int| 0 <= j < pth.len() && fwd.contains(#[trigger] pth[j]);
            // forward completeness pulls the whole cycle into the
            // forward set
            assert forall|k: int|
                0 <= k < pth.len() - 1 && fwd.contains(#[trigger] pth[k]) implies fwd.contains(
                pth[k + 1],
            ) by {
                assert(step(g, pth[k], pth[k + 1]));
                assert(u.contains(pth[k + 1]));
            }
            lemma_cycle_closed_fwd(g, u, pth, fwd, j);
            if exists|j2: int| 0 <= j2 < pth.len() && bwd.contains(#[trigger] pth[j2]) {
                let j2 = choose|j2: int| 0 <= j2 < pth.len() && bwd.contains(#[trigger] pth[j2]);
                assert forall|k: int|
                    0 <= k < pth.len() - 1 && bwd.contains(#[trigger] pth[k + 1]) implies bwd
                    .contains(pth[k]) by {
                    assert(step(g, pth[k], pth[k + 1]));
                    assert(fwd.contains(pth[k]));
                }
                lemma_cycle_closed_bwd(g, u, pth, bwd, j2);
                assert(pivots.contains(pth[0]) && pivots.contains(pth[1]));
                assert(step(g, pth[0], pth[1]));
                lemma_step_color(g, pth[0], pth[1]);
                lemma_step_distinct(g, pth[0], pth[1]);
                assert(false);
            }
            assert forall|i: int| 0 <= i < pth.len() implies converged.contains(
                #[trigger] pth[i],
            ) by {
                assert(fwd.contains(pth[i]) && dfc.contains(pth[i]));
                assert(!bwd.contains(pth[i]));
            }
            assert(is_path_in(g, converged, pth));
            assert(has_cycle(g, converged));
        } else {
            assert forall|i: int| 0 <= i < pth.len() implies rest.contains(#[trigger] pth[i]) by {
                assert(u.contains(pth[i]));
                assert(!fwd.contains(pth[i]));
                assert(!dbc.contains(pth[i]));
            }
            assert(is_path_in(g, rest, pth));
            assert(has_cycle(g, rest));
        }
    } else {
        // every state of the universe falls under one completed side
        assert(u.contains(pth[0]));
        crate::valuations::lemma_color_projection_contains_self(u, g.p, g.n(), pth[0]);
        assert(dbc.contains(pth[0]));
        lemma_cycle_closed_fwd(g, u, pth, dbc, 0);
        if exists|j: int| 0 <= j < pth.len() && bwd.contains(#[trigger] pth[j]) {
            let j = choose|j: int| 0 <= j < pth.len() && bwd.contains(#[trigger] pth[j]);
            assert forall|k: int|
                0 <= k < pth.len() - 1 && bwd.contains(#[trigger] pth[k + 1]) implies bwd.contains(
                pth[k],
            ) by {
                assert(step(g, pth[k], pth[k + 1]));
                assert(u.contains(pth[k]));
            }
            lemma_cycle_closed_bwd(g, u, pth, bwd, j);
            if exists|j2: int| 0 <= j2 < pth.len() && fwd.contains(#[trigger] pth[j2]) {
                let j2 = choose|j2: int| 0 <= j2 < pth.len() && fwd.contains(#[trigger] pth[j2]);
                assert forall|k: int|
                    0 <= k < pth.len() - 1 && fwd.contains(#[trigger] pth[k]) implies fwd.contains(
                    pth[k + 1],
                ) by {
                    assert(step(g, pth[k], pth[k + 1]));
                    assert(bwd.contains(pth[k + 1]));
                }
                lemma_cycle_closed_fwd(g, u, pth, fwd, j2);
                assert(pivots.contains(pth[0]) && pivots.contains(pth[1]));
                assert(step(g, pth[0], pth[1]));
                lemma_step_color(g, pth[0], pth[1]);
                lemma_step_distinct(g, pth[0], pth[1]);
                assert(false);
            }
            assert forall|i: int| 0 <= i < pth.len() implies converged.contains(
                #[trigger] pth[i],
            ) by {
                assert(bwd.contains(pth[i]) && dbc.contains(pth[i]));
                assert(!fwd.contains(pth[i]));
            }
            assert(is_path_in(g, converged, pth));
            assert(has_cycle(g, converged));
        } else {
            assert forall|i: int| 0 <= i < pth.len() implies rest.contains(#[trigger] pth[i]) by {
                assert(u.contains(pth[i]));
                assert(!bwd.contains(pth[i]));
                assert(!dfc.contains(pth[i]));
            }
            assert(is_path_in(g, rest, pth));
            assert(has_cycle(g, rest));
        }
    }
}

/// Classify one finished pass: the component layer is the intersection of
/// the forward and backward sets; its colors with more than the pivot are
/// recorded.  The remainder splits into the converged part (kept within
/// whichever side finished first) and the rest; together the two parts
/// are strictly smaller than the universe.
fn classify_and_split(
    graph: &SymbolicAsyncGraph,
    universe: &GraphColoredVertices,
    pivot: &GraphColoredVertices,
    fwd: &GraphColoredVertices,
    bwd: &GraphColoredVertices,
    done_fwd: &GraphColors,
    done_bwd: &GraphColors,
    counter: &mut Counter,
) -> (res: (GraphColoredVertices, GraphColoredVertices))
    requires
        graph.wf(),
        universe.wf(),
        universe.same_layout(graph@.p, graph@.s),
        pivot.wf(),
        pivot.same_layout(graph@.p, graph@.s),
        fwd.wf(),
        fwd.same_layout(graph@.p, graph@.s),
        bwd.wf(),
        bwd.same_layout(graph@.p, graph@.s),
        fwd@.subset_of(universe@),
        bwd@.subset_of(universe@),
        pivot@.subset_of(fwd@),
        pivot@.subset_of(bwd@),
        exists|w: Seq<bool>| #[trigger] pivot@.contains(w),
        one_per_color(pivot@, graph@.p),
        done_fwd.wf() && done_fwd.p() == graph@.p && done_fwd.s() == graph@.s,
        done_bwd.wf() && done_bwd.p() == graph@.p && done_bwd.s() == graph@.s,
        done_bwd@ == color_projection(universe@, graph@.p, graph@.n()).difference(done_fwd@),
        fwd_complete_for(graph@, universe@, fwd@, done_fwd@),
        bwd_complete_for(graph@, universe@, bwd@, done_bwd@),
        bwd_complete_for(graph@, fwd@, bwd@, done_fwd@),
        fwd_complete_for(graph@, bwd@, fwd@, done_bwd@),
    ensures
        res.0.wf() && res.0.same_layout(graph@.p, graph@.s) && res.0@.subset_of(universe@),
        res.1.wf() && res.1.same_layout(graph@.p, graph@.s) && res.1@.subset_of(universe@),
        res.0@.len() + res.1@.len() < universe@.len(),
        old(counter)@.len() <= final(counter)@.len() <= old(counter)@.len() + 1,
        has_cycle(graph@, universe@) ==> final(counter)@.len() > old(counter)@.len()
            || has_cycle(graph@, res.0@) || has_cycle(graph@, res.1@),
{
    let ghost g = graph@;
    let scc = fwd.intersect(bwd);
    let non_pivot_states = scc.minus(pivot);
    let non_trivial_colors = non_pivot_states.colors();
    let recorded = !non_trivial_colors.is_empty();
    if recorded {
        counter.push(&non_trivial_colors);
    }
    let fwd_converged = fwd.intersect_colors(done_fwd);
    let bwd_converged = bwd.intersect_colors(done_bwd);
    let converged = fwd_converged.union(&bwd_converged).minus(&scc);
    let rest = universe.minus(&converged).minus(&scc);
    proof {
        universe.lemma_wf_props();
        let p0 = choose|w: Seq<bool>| #[trigger] pivot@.contains(w);
        assert(scc@.contains(p0));
        assert(rest@.disjoint(converged@));
        lemma_split_smaller(universe@, rest@, converged@, p0);
        if !recorded {
            // an empty color projection means an empty set: the component
            // layer holds nothing beyond the pivots
            graph.lemma_wf_sem();
            non_pivot_states.lemma_wf_props();
            done_fwd.lemma_wf_props();
            done_bwd.lemma_wf_props();
            crate::valuations::lemma_color_projection_empty_iff(non_pivot_states@, g.p, g.n());
            assert(non_pivot_states@.is_empty());
            assert(scc@.subset_of(pivot@)) by {
                assert forall|v: Seq<bool>| scc@.contains(v) implies pivot@.contains(v) by {
                    if !pivot@.contains(v) {
                        assert(non_pivot_states@.contains(v));
                    }
                }
            }
            if has_cycle(g, universe@) {
                lemma_lockstep_cycle_preserved(
                    g,
                    universe@,
                    pivot@,
                    fwd@,
                    bwd@,
                    done_fwd@,
                    done_bwd@,
                );
            }
        }
    }
    (rest, converged)
}

/// The total number of (state, color) pairs outstanding on the worklist
/// of the lockstep variants.
pub open spec fn stack_volume_base(s: Seq<(GraphColoredVertices, VariableId)>) -> nat
    decreases s.len(),
{
    if s.len() == 0 {
        0
    } else {
        s.last().0@.len() + stack_volume_base(s.drop_last())
    }
}

proof fn lemma_stack_volume_base_push(
    s: Seq<(GraphColoredVertices, VariableId)>,
    x: (GraphColoredVertices, VariableId),
)
    ensures
        stack_volume_base(s.push(x)) == stack_volume_base(s) + x.0@.len(),
{
    assert(s.push(x).drop_last() =~= s);
    assert(s.push(x).last() == x);
}

/// SCC decomposition, lockstep variants: the forward and backward
/// searches of each pass advance together, one round per side, and each
/// side is completed for the colors the other side finished first.  The
/// strategy selects plain whole-graph rounds or saturated per-variable
/// rounds; both report the same components.  Returns the number of
/// non-trivial color-labeled components recorded: zero exactly when the
/// unit set trims to nothing, since a surviving cycle always yields at
/// least one recorded component.
pub fn decomposition(graph: &SymbolicAsyncGraph, strategy: ReachStrategy) -> (r: usize)
    requires
        graph.wf(),
        graph@.s >= 1,
    ensures
        r == 0 <==> trim_sem(graph@, graph@.unit).is_empty(),
        !has_cycle(graph@, graph@.unit) ==> r == 0,
{
    proof {
        graph.lemma_wf_sem();
        if !has_cycle(graph@, graph@.unit) {
            lemma_trim_acyclic_empty(graph@, graph@.unit);
        }
    }
    let ghost g = graph@;
    let mut counter = Counter::new(graph);
    let vars = graph.variables();
    let base = vars[0];
    let mut universes: Vec<(GraphColoredVertices, VariableId)> = Vec::new();
    universes.push((graph.mk_unit_colored_vertices(), base));
    proof {
        if has_cycle(g, g.unit) {
            assert(has_cycle(g, (universes@[0]).0@));
        }
    }
    while universes.len() > 0
        invariant
            graph.wf(),
            g == graph@,
            trim_sem(g, g.unit).is_empty() ==> counter@.len() == 0,
            counter@.len() == 0 ==> (!has_cycle(g, g.unit) || exists|k: int|
                0 <= k < universes@.len() && has_cycle(g, (#[trigger] universes@[k]).0@)),
            forall|k: int|
                0 <= k < universes@.len() ==> {
                    let e = #[trigger] universes@[k];
                    &&& e.0.wf()
                    &&& e.0.same_layout(g.p, g.s)
                    &&& e.0@.subset_of(g.unit)
                },
        decreases 2 * stack_volume_base(universes@) + universes@.len(),
    {
        let ghost stack0 = universes@;
        let ghost m0 = 2 * stack_volume_base(stack0) + stack0.len();
        let ghost count0 = counter@.len();
        assert(stack0[stack0.len() - 1] == stack0.last());
        let (universe, base) = universes.pop().unwrap();
        proof {
            assert(stack_volume_base(stack0) == universe@.len() + stack_volume_base(universes@));
            universe.lemma_wf_props();
        }
        let ghost popped = universe@;
        let universe = trim(graph, universe);
        proof {
            universe.lemma_wf_props();
            lemma_trim_sem_subset(g, popped);
            vstd::set_lib::lemma_len_subset(universe@, popped);
            if trim_sem(g, g.unit).is_empty() {
                lemma_trim_sem_monotone(g, popped, g.unit);
                assert(universe@.subset_of(trim_sem(g, g.unit)));
                assert(universe@ =~= Set::<Seq<bool>>::empty());
            }
        }
        if !universe.is_empty() {
            proof {
                if trim_sem(g, g.unit).is_empty() {
                    assert(universe@.contains(universe@.choose()));
                }
            }
            let pivot = universe.pick_vertex();
            proof {
                let v = universe@.choose();
                assert(universe@.contains(v));
                let w = choose|w: Seq<bool>|
                    #[trigger] pivot@.contains(w) && crate::valuations::color_eq(v, w, g.p);
                assert(pivot@.contains(w));
            }
            let (fwd, bwd, done_fwd, done_bwd) = match strategy {
                ReachStrategy::Lockstep => lockstep_reach(graph, &universe, &pivot),
                ReachStrategy::LockstepSaturation => saturation_reach(graph, &universe, &pivot),
            };
            let (rest, converged) = classify_and_split(
                graph,
                &universe,
                &pivot,
                &fwd,
                &bwd,
                &done_fwd,
                &done_bwd,
                &mut counter,
            );
            proof {
                vstd::set_lib::lemma_len_subset(rest@, universe@);
                vstd::set_lib::lemma_len_subset(converged@, universe@);
            }
            let ghost stack_a = universes@;
            if !rest.is_empty() {
                universes.push((rest, base));
                proof {
                    lemma_stack_volume_base_push(stack_a, universes@.last());
                }
            }
            let ghost stack_b = universes@;
            if !converged.is_empty() {
                universes.push((converged, base));
                proof {
                    lemma_stack_volume_base_push(stack_b, universes@.last());
                }
            }
            proof {
                assert(2 * stack_volume_base(universes@) + universes@.len() < m0);
                // a cycle known to the worklist is never lost: it was
                // recorded, it survives in a pushed sub-universe, or it
                // sat in another worklist entry all along
                if counter@.len() == 0 && has_cycle(g, g.unit) {
                    assert(count0 == 0);
                    let k = choose|k: int|
                        0 <= k < stack0.len() && has_cycle(g, (#[trigger] stack0[k]).0@);
                    if k < stack0.len() - 1 {
                        assert(universes@[k] == stack0[k]);
                        assert(has_cycle(g, (universes@[k]).0@));
                    } else {
                        lemma_cycle_in_trim(g, popped);
                        assert(has_cycle(g, universe@));
                        if has_cycle(g, rest@) {
                            lemma_has_cycle_nonempty(g, rest@);
                            let ghost k1 = stack_a.len() as int;
                            assert(universes@[k1] == (rest, base));
                            assert(has_cycle(g, (universes@[k1]).0@));
                        } else {
                            assert(has_cycle(g, converged@));
                            lemma_has_cycle_nonempty(g, converged@);
                            let ghost k2 = universes@.len() - 1;
                            assert(universes@[k2] == (converged, base));
                            assert(has_cycle(g, (universes@[k2]).0@));
                        }
                    }
                }
            }
        } else {
            proof {
                // an entry that trims to nothing held no cycle, so any
                // witness entry is still on the worklist
                if counter@.len() == 0 && has_cycle(g, g.unit) {
                    let k = choose|k: int|
                        0 <= k < stack0.len() && has_cycle(g, (#[trigger] stack0[k]).0@);
                    if k == stack0.len() - 1 {
                        lemma_cycle_in_trim(g, popped);
                        assert(!universe@.is_empty());
                    }
                    assert(universes@[k] == stack0[k]);
                    assert(has_cycle(g, (universes@[k]).0@));
                }
            }
        }
    }
    proof {
        if counter@.len() == 0 {
            if has_cycle(g, g.unit) {
                assert(false);
            }
            lemma_trim_acyclic_empty(g, g.unit);
        }
    }
    counter.len()
}


/// Classification is exact: with one pivot per color, the declared
/// component layer — the backward reachable set of the pivots inside
/// their forward reachable set — holds exactly the (state, color) pairs
/// that are mutually reachable with their color's pivot inside the
/// universe.  In other words, per color it is the strongly connected
/// component of the pivot.
pub proof fn lemma_scc_classification(g: GraphSem, u: Set<Seq<bool>>, pivots: Set<Seq<bool>>)
    requires
        g.wf(),
        crate::bdd_ops::vals_ok(u, g.n()),
        pivots.subset_of(u),
        one_per_color(pivots, g.p),
    ensures
        ({
            let fw = fwd_reach(g, u, pivots);
            let scc = bwd_reach(g, fw, pivots);
            forall|x: Seq<bool>| #[trigger] scc.contains(x) <==> exists|p: Seq<bool>|
                #[trigger] pivots.contains(p) && reaches_within(g, u, p, x) && reaches_within(
                    g,
                    u,
                    x,
                    p,
                )
        }),
{
    let fw = fwd_reach(g, u, pivots);
    let scc = bwd_reach(g, fw, pivots);
    lemma_fwd_reach_subset(g, u, pivots);
    lemma_bwd_reach_subset(g, fw, pivots);
    assert forall|x: Seq<bool>| #[trigger] scc.contains(x) implies exists|p: Seq<bool>|
        #[trigger] pivots.contains(p) && reaches_within(g, u, p, x) && reaches_within(
            g,
            u,
            x,
            p,
        ) by {
        // x reaches some pivot inside the forward set, and some pivot
        // reaches x inside the universe; colors force the two pivots to
        // be the same one
        reveal(fwd_reach);
        reveal(bwd_reach);
        let p2 = choose|p2: Seq<bool>|
            #[trigger] pivots.contains(p2) && reaches_within(g, fw, x, p2);
        lemma_reaches_mono(g, fw, u, x, p2);
        assert(fw.contains(x));
        let p1 = choose|p1: Seq<bool>|
            #[trigger] pivots.contains(p1) && reaches_within(g, u, p1, x);
        lemma_reaches_color(g, u, p1, x);
        lemma_reaches_color(g, u, x, p2);
        assert(crate::valuations::color_eq(p1, p2, g.p));
        assert(p1 == p2);
        assert(pivots.contains(p1) && reaches_within(g, u, p1, x) && reaches_within(
            g,
            u,
            x,
            p1,
        ));
    }
    assert forall|x: Seq<bool>| (exists|p: Seq<bool>|
        #[trigger] pivots.contains(p) && reaches_within(g, u, p, x) && reaches_within(
            g,
            u,
            x,
            p,
        )) implies #[trigger] scc.contains(x) by {
        let p = choose|p: Seq<bool>|
            #[trigger] pivots.contains(p) && reaches_within(g, u, p, x) && reaches_within(
                g,
                u,
                x,
                p,
            );
        // the whole return path from x to the pivot stays inside the
        // forward set, because the pivot reaches each of its elements
        let pth = choose|pth: Seq<Seq<bool>>|
            #[trigger] is_path_in(g, u, pth) && pth[0] == x && pth[pth.len() - 1] == p;
        assert forall|i: int| 0 <= i < pth.len() implies fw.contains(#[trigger] pth[i]) by {
            assert(u.contains(pth[0]));
            crate::semantics::lemma_reaches_self(g, u, x);
            lemma_reaches_along(g, u, x, pth, i);
            lemma_reaches_trans(g, u, p, x, pth[i]);
            assert(fw.contains(pth[i])) by {
                reveal(fwd_reach);
            }
        }
        assert(is_path_in(g, fw, pth));
        assert(reaches_within(g, fw, x, p));
        assert(scc.contains(x)) by {
            reveal(bwd_reach);
        }
    }
}

} // verus!
