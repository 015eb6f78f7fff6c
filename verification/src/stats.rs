//! Diagnostic counters and counting decorators.
//!
//! `Stats` is a passive collector of symbolic-step counts and diagram
//! sizes, passed by reference wherever counting is wanted; it never
//! influences a result.  The two `Stat*` types decorate a colored set and
//! a graph with the same operations as the things they wrap.  Counters
//! saturate at their maximum instead of wrapping.

use vstd::prelude::*;

verus! {

use crate::async_graph::SymbolicAsyncGraph;
use crate::colored_sets::{GraphColoredVertices, GraphColors, covers_colors, one_per_color};
use crate::semantics::{GraphSem, post_sem, pre_sem};

/// One saturating tick of a diagnostic counter.
pub open spec fn bumped(x: u64) -> u64 {
    if x == u64::MAX {
        x
    } else {
        (x + 1) as u64
    }
}

/// Process-local diagnostic counters for one search run.
#[derive(Clone)]
pub struct Stats {
    pub iterations: u64,
    pub union_count: u64,
    pub intersect_count: u64,
    pub minus_count: u64,
    pub pick_vertex_count: u64,
    pub post_count: u64,
    pub pre_count: u64,
    pub total_symbolic_steps: u64,
    pub trim_mode: bool,
    pub trim_intersect_count: u64,
    pub trim_post_count: u64,
    pub trim_pre_count: u64,
    pub max_bdd_size: u64,
    pub total_bdds: u64,
    pub total_bdd_size: u64,
}

impl Default for Stats {
    fn default() -> (r: Stats)
        ensures
            r.iterations == 0 && r.union_count == 0 && r.intersect_count == 0 && r.minus_count
                == 0 && r.pick_vertex_count == 0 && r.post_count == 0 && r.pre_count == 0
                && r.total_symbolic_steps == 0 && !r.trim_mode && r.trim_intersect_count == 0
                && r.trim_post_count == 0 && r.trim_pre_count == 0 && r.max_bdd_size == 0
                && r.total_bdds == 0 && r.total_bdd_size == 0,
    {
        Stats {
            iterations: 0,
            union_count: 0,
            intersect_count: 0,
            minus_count: 0,
            pick_vertex_count: 0,
            post_count: 0,
            pre_count: 0,
            total_symbolic_steps: 0,
            trim_mode: false,
            trim_intersect_count: 0,
            trim_post_count: 0,
            trim_pre_count: 0,
            max_bdd_size: 0,
            total_bdds: 0,
            total_bdd_size: 0,
        }
    }
}

impl Stats {
    pub fn inc_iterations(&mut self)
        ensures
            *final(self) == (Stats { iterations: bumped(old(self).iterations), ..*old(self) }),
    {
        if self.iterations != u64::MAX {
            self.iterations = self.iterations + 1;
        }
    }

    pub fn toggle_trim_mode(&mut self)
        ensures
            *final(self) == (Stats { trim_mode: !old(self).trim_mode, ..*old(self) }),
    {
        self.trim_mode = !self.trim_mode;
    }

    pub fn inc_symbolic_steps(&mut self)
        ensures
            *final(self) == (
            Stats { total_symbolic_steps: bumped(old(self).total_symbolic_steps), ..*old(self) }
            ),
    {
        if self.total_symbolic_steps != u64::MAX {
            self.total_symbolic_steps = self.total_symbolic_steps + 1;
        }
    }

    pub fn inc_union_count(&mut self)
        ensures
            *final(self) == (Stats { union_count: bumped(old(self).union_count), ..*old(self) }),
    {
        if self.union_count != u64::MAX {
            self.union_count = self.union_count + 1;
        }
    }

    /// In trim mode, intersections are attributed to trimming as well.
    pub fn inc_intersect_count(&mut self)
        ensures
            final(self).intersect_count == bumped(old(self).intersect_count),
            final(self).trim_intersect_count == if old(self).trim_mode {
                bumped(old(self).trim_intersect_count)
            } else {
                old(self).trim_intersect_count
            },
            final(self).trim_mode == old(self).trim_mode,
            final(self).iterations == old(self).iterations,
            final(self).union_count == old(self).union_count,
            final(self).minus_count == old(self).minus_count,
            final(self).post_count == old(self).post_count,
            final(self).pre_count == old(self).pre_count,
    {
        if self.trim_mode {
            if self.trim_intersect_count != u64::MAX {
                self.trim_intersect_count = self.trim_intersect_count + 1;
            }
        }
        if self.intersect_count != u64::MAX {
            self.intersect_count = self.intersect_count + 1;
        }
    }

    pub fn inc_minus_count(&mut self)
        ensures
            *final(self) == (Stats { minus_count: bumped(old(self).minus_count), ..*old(self) }),
    {
        if self.minus_count != u64::MAX {
            self.minus_count = self.minus_count + 1;
        }
    }

    pub fn inc_pick_vertex_count(&mut self)
        ensures
            *final(self) == (
            Stats { pick_vertex_count: bumped(old(self).pick_vertex_count), ..*old(self) }
            ),
    {
        if self.pick_vertex_count != u64::MAX {
            self.pick_vertex_count = self.pick_vertex_count + 1;
        }
    }

    /// In trim mode, successor steps are attributed to trimming as well.
    pub fn inc_post_count(&mut self)
        ensures
            final(self).post_count == bumped(old(self).post_count),
            final(self).trim_post_count == if old(self).trim_mode {
                bumped(old(self).trim_post_count)
            } else {
                old(self).trim_post_count
            },
            final(self).trim_mode == old(self).trim_mode,
            final(self).pre_count == old(self).pre_count,
            final(self).intersect_count == old(self).intersect_count,
    {
        if self.trim_mode {
            if self.trim_post_count != u64::MAX {
                self.trim_post_count = self.trim_post_count + 1;
            }
        }
        if self.post_count != u64::MAX {
            self.post_count = self.post_count + 1;
        }
    }

    /// In trim mode, predecessor steps are attributed to trimming as well.
    pub fn inc_pre_count(&mut self)
        ensures
            final(self).pre_count == bumped(old(self).pre_count),
            final(self).trim_pre_count == if old(self).trim_mode {
                bumped(old(self).trim_pre_count)
            } else {
                old(self).trim_pre_count
            },
            final(self).trim_mode == old(self).trim_mode,
            final(self).post_count == old(self).post_count,
            final(self).intersect_count == old(self).intersect_count,
    {
        if self.trim_mode {
            if self.trim_pre_count != u64::MAX {
                self.trim_pre_count = self.trim_pre_count + 1;
            }
        }
        if self.pre_count != u64::MAX {
            self.pre_count = self.pre_count + 1;
        }
    }

    /// Symbolic steps spent inside trimming, over all three step kinds.
    pub fn total_trimming_steps(&self) -> (r: u64)
        ensures
            r == if self.trim_intersect_count + self.trim_post_count + self.trim_pre_count
                <= u64::MAX {
                (self.trim_intersect_count + self.trim_post_count + self.trim_pre_count) as u64
            } else {
                u64::MAX
            },
    {
        let a = self.trim_intersect_count;
        let b = self.trim_post_count;
        let c = self.trim_pre_count;
        if a <= u64::MAX - b {
            let ab = a + b;
            if ab <= u64::MAX - c {
                ab + c
            } else {
                u64::MAX
            }
        } else {
            u64::MAX
        }
    }

    /// Track the largest diagram seen and the totals from which an
    /// average size can be derived.
    pub fn update_bdd_size(&mut self, size: usize)
        ensures
            final(self).max_bdd_size == if old(self).max_bdd_size >= size as u64 {
                old(self).max_bdd_size
            } else {
                size as u64
            },
            final(self).total_bdds == bumped(old(self).total_bdds),
            final(self).total_bdd_size == if old(self).total_bdd_size + size as u64 <= u64::MAX {
                (old(self).total_bdd_size + size as u64) as u64
            } else {
                u64::MAX
            },
            final(self).trim_mode == old(self).trim_mode,
    {
        let size64 = size as u64;
        if self.max_bdd_size < size64 {
            self.max_bdd_size = size64;
        }
        if self.total_bdds != u64::MAX {
            self.total_bdds = self.total_bdds + 1;
        }
        if self.total_bdd_size <= u64::MAX - size64 {
            self.total_bdd_size = self.total_bdd_size + size64;
        } else {
            self.total_bdd_size = u64::MAX;
        }
    }
}

/// A colored vertex set that counts the symbolic operations applied to it
/// through a `Stats` collector handed in by the caller.
pub struct StatGraphColoredVertices {
    pub(crate) vertices: GraphColoredVertices,
}

impl View for StatGraphColoredVertices {
    type V = Set<Seq<bool>>;

    closed spec fn view(&self) -> Set<Seq<bool>> {
        self.vertices@
    }
}

impl Clone for StatGraphColoredVertices {
    fn clone(&self) -> (r: Self)
        ensures
            r == *self,
    {
        StatGraphColoredVertices { vertices: self.vertices.clone() }
    }
}

impl StatGraphColoredVertices {
    pub closed spec fn p(&self) -> nat {
        self.vertices.p()
    }

    pub closed spec fn s(&self) -> nat {
        self.vertices.s()
    }

    pub closed spec fn wf(&self) -> bool {
        self.vertices.wf()
    }

    pub open spec fn compatible(&self, other: &Self) -> bool {
        self.p() == other.p() && self.s() == other.s()
    }

    pub fn new(vertices: GraphColoredVertices) -> (r: Self)
        ensures
            r@ == vertices@,
            r.wf() == vertices.wf(),
            r.p() == vertices.p() && r.s() == vertices.s(),
    {
        Self { vertices }
    }

    /// The undecorated set.
    pub fn as_colored_vertices(&self) -> (r: &GraphColoredVertices)
        ensures
            r@ == self@,
            r.wf() == self.wf(),
            r.p() == self.p() && r.s() == self.s(),
    {
        &self.vertices
    }

    pub fn union(&self, other: &Self, stats: &mut Stats) -> (r: Self)
        requires
            self.wf(),
            other.wf(),
            self.compatible(other),
        ensures
            r.wf(),
            r.p() == self.p() && r.s() == self.s(),
            r@ == self@.union(other@),
            final(stats).union_count == bumped(old(stats).union_count),
    {
        stats.inc_union_count();
        Self::new(self.vertices.union(&other.vertices))
    }

    pub fn intersect(&self, other: &Self, stats: &mut Stats) -> (r: Self)
        requires
            self.wf(),
            other.wf(),
            self.compatible(other),
        ensures
            r.wf(),
            r.p() == self.p() && r.s() == self.s(),
            r@ == self@.intersect(other@),
            final(stats).intersect_count == bumped(old(stats).intersect_count),
    {
        stats.inc_intersect_count();
        Self::new(self.vertices.intersect(&other.vertices))
    }

    pub fn intersect_colors(&self, other: &GraphColors, stats: &mut Stats) -> (r: Self)
        requires
            self.wf(),
            other.wf(),
            self.p() == other.p() && self.s() == other.s(),
        ensures
            r.wf(),
            r.p() == self.p() && r.s() == self.s(),
            r@ == self@.intersect(other@),
            final(stats).intersect_count == bumped(old(stats).intersect_count),
    {
        stats.inc_intersect_count();
        Self::new(self.vertices.intersect_colors(other))
    }

    pub fn minus(&self, other: &Self, stats: &mut Stats) -> (r: Self)
        requires
            self.wf(),
            other.wf(),
            self.compatible(other),
        ensures
            r.wf(),
            r.p() == self.p() && r.s() == self.s(),
            r@ == self@.difference(other@),
            final(stats).minus_count == bumped(old(stats).minus_count),
    {
        stats.inc_minus_count();
        Self::new(self.vertices.minus(&other.vertices))
    }

    pub fn minus_colors(&self, other: &GraphColors, stats: &mut Stats) -> (r: Self)
        requires
            self.wf(),
            other.wf(),
            self.p() == other.p() && self.s() == other.s(),
        ensures
            r.wf(),
            r.p() == self.p() && r.s() == self.s(),
            r@ == self@.difference(other@),
            final(stats).minus_count == bumped(old(stats).minus_count),
    {
        stats.inc_minus_count();
        Self::new(self.vertices.minus_colors(other))
    }

    pub fn is_empty(&self) -> (r: bool)
        requires
            self.wf(),
        ensures
            r <==> self@.is_empty(),
    {
        self.vertices.is_empty()
    }

    pub fn pick_vertex(&self, stats: &mut Stats) -> (r: Self)
        requires
            self.wf(),
        ensures
            r.wf(),
            r.p() == self.p() && r.s() == self.s(),
            r@.subset_of(self@),
            covers_colors(r@, self@, self.p()),
            one_per_color(r@, self.p()),
            final(stats).pick_vertex_count == bumped(old(stats).pick_vertex_count),
    {
        stats.inc_pick_vertex_count();
        Self::new(self.vertices.pick_vertex())
    }
}

/// A transition graph that counts the whole-graph steps taken through it.
pub struct StatSymbolicAsyncGraph {
    pub(crate) graph: SymbolicAsyncGraph,
}

impl View for StatSymbolicAsyncGraph {
    type V = GraphSem;

    closed spec fn view(&self) -> GraphSem {
        self.graph@
    }
}

impl StatSymbolicAsyncGraph {
    pub closed spec fn wf(&self) -> bool {
        self.graph.wf()
    }

    pub fn new(graph: SymbolicAsyncGraph) -> (r: Self)
        ensures
            r@ == graph@,
            r.wf() == graph.wf(),
    {
        Self { graph }
    }

    /// The undecorated graph.
    pub fn as_graph(&self) -> (r: &SymbolicAsyncGraph)
        ensures
            r@ == self@,
            r.wf() == self.wf(),
    {
        &self.graph
    }

    pub fn mk_empty_vertices(&self) -> (r: StatGraphColoredVertices)
        requires
            self.wf(),
        ensures
            r.wf(),
            r.p() == self@.p && r.s() == self@.s,
            r@ == Set::<Seq<bool>>::empty(),
    {
        StatGraphColoredVertices::new(self.graph.mk_empty_vertices())
    }

    pub fn mk_unit_colored_vertices(&self) -> (r: StatGraphColoredVertices)
        requires
            self.wf(),
        ensures
            r.wf(),
            r.p() == self@.p && r.s() == self@.s,
            r@ == self@.unit,
    {
        StatGraphColoredVertices::new(self.graph.mk_unit_colored_vertices())
    }

    pub fn pre(&self, initial: &StatGraphColoredVertices, stats: &mut Stats) -> (r:
        StatGraphColoredVertices)
        requires
            self.wf(),
            initial.wf(),
            initial.p() == self@.p && initial.s() == self@.s,
        ensures
            r.wf(),
            r.p() == self@.p && r.s() == self@.s,
            r@ == pre_sem(self@, initial@),
            final(stats).pre_count == bumped(old(stats).pre_count),
    {
        stats.inc_pre_count();
        StatGraphColoredVertices::new(self.graph.pre(&initial.vertices))
    }

    pub fn post(&self, initial: &StatGraphColoredVertices, stats: &mut Stats) -> (r:
        StatGraphColoredVertices)
        requires
            self.wf(),
            initial.wf(),
            initial.p() == self@.p && initial.s() == self@.s,
        ensures
            r.wf(),
            r.p() == self@.p && r.s() == self@.s,
            r@ == post_sem(self@, initial@),
            final(stats).post_count == bumped(old(stats).post_count),
    {
        stats.inc_post_count();
        StatGraphColoredVertices::new(self.graph.post(&initial.vertices))
    }
}

} // verus!
