//! Colored set types: thin, invariant-preserving views over the BDD algebra.
//!
//! All three types carry the variable layout of their symbolic context:
//! `p_var_count` parameter variables followed by `s_var_count` state
//! variables.  A `GraphColoredVertices` is a relation between states and
//! colors; a `GraphColors` never constrains state variables; a
//! `GraphVertices` never constrains parameter variables.

use vstd::prelude::*;

verus! {

use biodivine_lib_bdd::Bdd;
use crate::bdd_ops::{
    bdd_sat,
    bdd_nvars,
    vals_ok,
    agrees_outside,
    sat_is_singleton,
    bdd_and,
    bdd_or,
    bdd_and_not,
    bdd_is_false,
    bdd_exists,
    bdd_pick,
    bdd_witness,
    bdd_clone,
    bdd_size,
};
use crate::valuations::{
    color_eq,
    state_eq,
    state_closed,
    param_closed,
    color_projection,
    state_projection,
    is_index_range,
    lemma_index_range_contains,
    lemma_index_range_distinct,
    lemma_agrees_outside_states,
    lemma_agrees_outside_params,
    range_vec,
};

/// The variable layout shared by all sets of one symbolic encoding:
/// parameter variables first, then one state variable per network variable.
pub struct SymbolicContext {
    pub p_var_count: u16,
    pub s_var_count: u16,
}

impl SymbolicContext {
    /// The BDD library refuses variable sets of 65534 or more variables.
    pub open spec fn wf(&self) -> bool {
        self.p_var_count + self.s_var_count < 0xFFFE
    }

    /// Total number of BDD variables of this context.
    pub open spec fn total_spec(&self) -> nat {
        (self.p_var_count + self.s_var_count) as nat
    }

    pub fn new(p_var_count: u16, s_var_count: u16) -> (r: Option<SymbolicContext>)
        ensures
            r matches Some(c) ==> c.wf() && c.p_var_count == p_var_count && c.s_var_count
                == s_var_count,
            r is None <==> p_var_count + s_var_count >= 0xFFFE,
    {
        if s_var_count < 0xFFFE && p_var_count < 0xFFFE - s_var_count {
            Some(SymbolicContext { p_var_count, s_var_count })
        } else {
            None
        }
    }

    pub fn total(&self) -> (r: u16)
        requires
            self.wf(),
        ensures
            r == self.total_spec(),
    {
        self.p_var_count + self.s_var_count
    }
}

/// One set per color: every state with a member color is itself a member.
pub open spec fn one_color(s: Set<Seq<bool>>, p: nat) -> bool {
    forall|v: Seq<bool>, w: Seq<bool>|
        #[trigger] s.contains(v) && #[trigger] s.contains(w) ==> color_eq(v, w, p)
}

/// Every member valuation of `orig` has a member of `s` of the same color.
pub open spec fn covers_colors(s: Set<Seq<bool>>, orig: Set<Seq<bool>>, p: nat) -> bool {
    forall|v: Seq<bool>| #[trigger] orig.contains(v) ==> exists|w: Seq<bool>|
        #[trigger] s.contains(w) && color_eq(v, w, p)
}

/// No two distinct members of `s` share a color.
pub open spec fn one_per_color(s: Set<Seq<bool>>, p: nat) -> bool {
    forall|v: Seq<bool>, w: Seq<bool>|
        #[trigger] s.contains(v) && #[trigger] s.contains(w) && color_eq(v, w, p) ==> v == w
}

/// Every member valuation of `orig` has a member of `s` of the same state.
pub open spec fn covers_states(s: Set<Seq<bool>>, orig: Set<Seq<bool>>, p: nat) -> bool {
    forall|v: Seq<bool>| #[trigger] orig.contains(v) ==> exists|w: Seq<bool>|
        #[trigger] s.contains(w) && state_eq(v, w, p)
}

/// No two distinct members of `s` share a state.
pub open spec fn one_per_state(s: Set<Seq<bool>>, p: nat) -> bool {
    forall|v: Seq<bool>, w: Seq<bool>|
        #[trigger] s.contains(v) && #[trigger] s.contains(w) && state_eq(v, w, p) ==> v == w
}

/// A set of (state, color) pairs of one symbolic context, represented as a
/// single BDD over the parameter and state variables.
pub struct GraphColoredVertices {
    pub(crate) bdd: Bdd,
    pub(crate) p_var_count: u16,
    pub(crate) s_var_count: u16,
}

/// A set of colors: a BDD constrained on parameter variables only.
pub struct GraphColors {
    pub(crate) bdd: Bdd,
    pub(crate) p_var_count: u16,
    pub(crate) s_var_count: u16,
}

/// A set of states: a BDD constrained on state variables only.
pub struct GraphVertices {
    pub(crate) bdd: Bdd,
    pub(crate) p_var_count: u16,
    pub(crate) s_var_count: u16,
}

impl View for GraphColoredVertices {
    type V = Set<Seq<bool>>;

    closed spec fn view(&self) -> Set<Seq<bool>> {
        bdd_sat(self.bdd)
    }
}

impl View for GraphColors {
    type V = Set<Seq<bool>>;

    closed spec fn view(&self) -> Set<Seq<bool>> {
        bdd_sat(self.bdd)
    }
}

impl View for GraphVertices {
    type V = Set<Seq<bool>>;

    closed spec fn view(&self) -> Set<Seq<bool>> {
        bdd_sat(self.bdd)
    }
}

impl Clone for GraphColoredVertices {
    fn clone(&self) -> (r: Self)
        ensures
            r == *self,
    {
        GraphColoredVertices {
            bdd: bdd_clone(&self.bdd),
            p_var_count: self.p_var_count,
            s_var_count: self.s_var_count,
        }
    }
}

impl Clone for GraphColors {
    fn clone(&self) -> (r: Self)
        ensures
            r == *self,
    {
        GraphColors {
            bdd: bdd_clone(&self.bdd),
            p_var_count: self.p_var_count,
            s_var_count: self.s_var_count,
        }
    }
}

impl Clone for GraphVertices {
    fn clone(&self) -> (r: Self)
        ensures
            r == *self,
    {
        GraphVertices {
            bdd: bdd_clone(&self.bdd),
            p_var_count: self.p_var_count,
            s_var_count: self.s_var_count,
        }
    }
}

impl GraphColoredVertices {
    pub closed spec fn p(&self) -> nat {
        self.p_var_count as nat
    }

    pub closed spec fn s(&self) -> nat {
        self.s_var_count as nat
    }

    pub open spec fn n(&self) -> nat {
        self.p() + self.s()
    }

    pub closed spec fn wf(&self) -> bool {
        &&& bdd_nvars(self.bdd) == self.n()
        &&& vals_ok(bdd_sat(self.bdd), self.n())
        &&& self.n() <= u16::MAX
    }

    pub open spec fn compatible(&self, other: &Self) -> bool {
        self.p() == other.p() && self.s() == other.s()
    }

    pub open spec fn same_layout(&self, p: nat, s: nat) -> bool {
        self.p() == p && self.s() == s
    }

    /// Well-formedness gives a finite set of valuations of the full length.
    pub proof fn lemma_wf_props(&self)
        requires
            self.wf(),
        ensures
            vals_ok(self@, self.n()),
            self.n() <= u16::MAX,
    {
    }

    /// Construct a new colored vertex set from a given `bdd` and symbolic
    /// `context`.
    pub fn new(bdd: Bdd, context: &SymbolicContext) -> (r: Self)
        requires
            context.wf(),
            bdd_nvars(bdd) == context.total_spec(),
            vals_ok(bdd_sat(bdd), context.total_spec()),
        ensures
            r.wf(),
            r.p() == context.p_var_count,
            r.s() == context.s_var_count,
            r@ == bdd_sat(bdd),
    {
        GraphColoredVertices {
            bdd,
            p_var_count: context.p_var_count,
            s_var_count: context.s_var_count,
        }
    }

    /// Construct a new colored vertex set by keeping the context of the
    /// current set.
    pub fn copy(&self, bdd: Bdd) -> (r: Self)
        requires
            self.wf(),
            bdd_nvars(bdd) == self.n(),
            vals_ok(bdd_sat(bdd), self.n()),
        ensures
            r.wf(),
            r.compatible(self),
            r@ == bdd_sat(bdd),
    {
        GraphColoredVertices {
            bdd,
            p_var_count: self.p_var_count,
            s_var_count: self.s_var_count,
        }
    }

    /// Convert this set to a raw BDD.
    pub fn into_bdd(self) -> (r: Bdd)
        requires
            self.wf(),
        ensures
            bdd_sat(r) == self@,
            bdd_nvars(r) == self.n(),
            vals_ok(bdd_sat(r), self.n()),
    {
        self.bdd
    }

    /// View this set as a raw BDD.
    pub fn as_bdd(&self) -> (r: &Bdd)
        requires
            self.wf(),
        ensures
            bdd_sat(*r) == self@,
            bdd_nvars(*r) == self.n(),
            vals_ok(bdd_sat(*r), self.n()),
    {
        &self.bdd
    }

    /// Amount of storage used for this symbolic set, in diagram nodes.
    pub fn symbolic_size(&self) -> (r: usize)
        ensures
            r >= 1,
    {
        bdd_size(&self.bdd)
    }

    pub fn union(&self, other: &Self) -> (r: Self)
        requires
            self.wf(),
            other.wf(),
            self.compatible(other),
        ensures
            r.wf(),
            r.compatible(self),
            r@ == self@.union(other@),
    {
        self.copy(bdd_or(&self.bdd, &other.bdd))
    }

    pub fn intersect(&self, other: &Self) -> (r: Self)
        requires
            self.wf(),
            other.wf(),
            self.compatible(other),
        ensures
            r.wf(),
            r.compatible(self),
            r@ == self@.intersect(other@),
    {
        self.copy(bdd_and(&self.bdd, &other.bdd))
    }

    pub fn minus(&self, other: &Self) -> (r: Self)
        requires
            self.wf(),
            other.wf(),
            self.compatible(other),
        ensures
            r.wf(),
            r.compatible(self),
            r@ == self@.difference(other@),
    {
        self.copy(bdd_and_not(&self.bdd, &other.bdd))
    }

    pub fn is_empty(&self) -> (r: bool)
        requires
            self.wf(),
        ensures
            r <==> self@.is_empty(),
    {
        bdd_is_false(&self.bdd)
    }

    pub fn is_subset(&self, other: &Self) -> (r: bool)
        requires
            self.wf(),
            other.wf(),
            self.compatible(other),
        ensures
            r <==> self@.subset_of(other@),
    {
        let diff = bdd_and_not(&self.bdd, &other.bdd);
        let r = bdd_is_false(&diff);
        proof {
            if self@.subset_of(other@) {
                assert(self@.difference(other@) =~= Set::<Seq<bool>>::empty());
            }
            if bdd_sat(diff) =~= Set::<Seq<bool>>::empty() {
                assert forall|v: Seq<bool>| self@.contains(v) implies other@.contains(v) by {
                    assert(!self@.difference(other@).contains(v));
                }
            }
        }
        r
    }

    /// Remove every pair whose color lies in `colors`.
    pub fn minus_colors(&self, colors: &GraphColors) -> (r: Self)
        requires
            self.wf(),
            colors.wf(),
            self.p() == colors.p() && self.s() == colors.s(),
        ensures
            r.wf(),
            r.compatible(self),
            r@ == self@.difference(colors@),
    {
        self.copy(bdd_and_not(&self.bdd, &colors.bdd))
    }

    /// Keep only the pairs whose color lies in `colors`.
    pub fn intersect_colors(&self, colors: &GraphColors) -> (r: Self)
        requires
            self.wf(),
            colors.wf(),
            self.p() == colors.p() && self.s() == colors.s(),
        ensures
            r.wf(),
            r.compatible(self),
            r@ == self@.intersect(colors@),
    {
        self.copy(bdd_and(&self.bdd, &colors.bdd))
    }

    /// For every color present in the set, pick exactly one witnessing
    /// vertex.
    pub fn pick_vertex(&self) -> (r: Self)
        requires
            self.wf(),
        ensures
            r.wf(),
            r.compatible(self),
            r@.subset_of(self@),
            covers_colors(r@, self@, self.p()),
            one_per_color(r@, self.p()),
    {
        proof {
            self.lemma_wf_props();
        }
        let total = self.p_var_count + self.s_var_count;
        let svars = range_vec(self.p_var_count, total);
        proof {
            lemma_index_range_contains(svars@, self.p_var_count, total);
            lemma_index_range_distinct(svars@, self.p_var_count, total);
        }
        let picked = bdd_pick(&self.bdd, &svars);
        proof {
            assert forall|v: Seq<bool>| #[trigger] self@.contains(v) implies exists|w: Seq<bool>|
                #[trigger] bdd_sat(picked).contains(w) && color_eq(v, w, self.p()) by {
                let w = choose|w: Seq<bool>|
                    #[trigger] bdd_sat(picked).contains(w) && agrees_outside(v, w, svars@);
                lemma_agrees_outside_states(v, w, self.p_var_count, self.s_var_count, svars@);
                assert(bdd_sat(picked).contains(w) && color_eq(v, w, self.p()));
            }
            assert forall|v: Seq<bool>, w: Seq<bool>|
                #[trigger] bdd_sat(picked).contains(v) && #[trigger] bdd_sat(picked).contains(w)
                    && color_eq(v, w, self.p()) implies v == w by {
                lemma_agrees_outside_states(v, w, self.p_var_count, self.s_var_count, svars@);
            }
        }
        self.copy(picked)
    }

    /// For every vertex present in the set, pick exactly one witnessing
    /// color.
    pub fn pick_color(&self) -> (r: Self)
        requires
            self.wf(),
        ensures
            r.wf(),
            r.compatible(self),
            r@.subset_of(self@),
            covers_states(r@, self@, self.p()),
            one_per_state(r@, self.p()),
    {
        proof {
            self.lemma_wf_props();
        }
        let pvars = range_vec(0, self.p_var_count);
        proof {
            lemma_index_range_contains(pvars@, 0, self.p_var_count);
            lemma_index_range_distinct(pvars@, 0, self.p_var_count);
        }
        let picked = bdd_pick(&self.bdd, &pvars);
        proof {
            assert forall|v: Seq<bool>| #[trigger] self@.contains(v) implies exists|w: Seq<bool>|
                #[trigger] bdd_sat(picked).contains(w) && state_eq(v, w, self.p()) by {
                let w = choose|w: Seq<bool>|
                    #[trigger] bdd_sat(picked).contains(w) && agrees_outside(v, w, pvars@);
                lemma_agrees_outside_params(v, w, self.p_var_count, self.s_var_count, pvars@);
                assert(bdd_sat(picked).contains(w) && state_eq(v, w, self.p()));
            }
            assert forall|v: Seq<bool>, w: Seq<bool>|
                #[trigger] bdd_sat(picked).contains(v) && #[trigger] bdd_sat(picked).contains(w)
                    && state_eq(v, w, self.p()) implies v == w by {
                lemma_agrees_outside_params(v, w, self.p_var_count, self.s_var_count, pvars@);
            }
        }
        self.copy(picked)
    }

    /// Pick one (vertex, color) pair from this set as a singleton set, or
    /// the empty set if this set is empty.
    pub fn pick_singleton(&self) -> (r: Self)
        requires
            self.wf(),
        ensures
            r.wf(),
            r.compatible(self),
            r@.subset_of(self@),
            self@.is_empty() ==> r@.is_empty(),
            !self@.is_empty() ==> sat_is_singleton(r@),
    {
        if self.is_empty() {
            self.clone()
        } else {
            proof {
                self.lemma_wf_props();
            }
            self.copy(bdd_witness(&self.bdd))
        }
    }

    /// The set of all colors which appear in this set for at least one
    /// vertex.
    pub fn colors(&self) -> (r: GraphColors)
        requires
            self.wf(),
        ensures
            r.wf(),
            r.p() == self.p() && r.s() == self.s(),
            r@ == color_projection(self@, self.p(), self.n()),
    {
        proof {
            self.lemma_wf_props();
        }
        let total = self.p_var_count + self.s_var_count;
        let svars = range_vec(self.p_var_count, total);
        proof {
            lemma_index_range_contains(svars@, self.p_var_count, total);
        }
        let out = bdd_exists(&self.bdd, &svars);
        let ghost p = self.p();
        let ghost n = self.n();
        proof {
            reveal(color_projection);
            assert forall|v: Seq<bool>| #[trigger] bdd_sat(out).contains(v) <==> color_projection(
                self@,
                p,
                n,
            ).contains(v) by {
                if bdd_sat(out).contains(v) {
                    let w = choose|w: Seq<bool>|
                        #[trigger] self@.contains(w) && agrees_outside(v, w, svars@);
                    lemma_agrees_outside_states(v, w, self.p_var_count, self.s_var_count, svars@);
                    assert(self@.contains(w) && color_eq(v, w, p));
                }
                if color_projection(self@, p, n).contains(v) {
                    let w = choose|w: Seq<bool>| #[trigger] self@.contains(w) && color_eq(v, w, p);
                    lemma_agrees_outside_states(v, w, self.p_var_count, self.s_var_count, svars@);
                    assert(self@.contains(w) && agrees_outside(v, w, svars@));
                }
            }
            assert(bdd_sat(out) =~= color_projection(self@, p, n));
            assert forall|v: Seq<bool>, w: Seq<bool>|
                #[trigger] bdd_sat(out).contains(v) && w.len() == n && #[trigger] color_eq(
                    v,
                    w,
                    p,
                ) implies bdd_sat(out).contains(w) by {
                let u = choose|u: Seq<bool>| #[trigger] self@.contains(u) && color_eq(v, u, p);
                assert(color_eq(w, u, p));
            }
        }
        GraphColors { bdd: out, p_var_count: self.p_var_count, s_var_count: self.s_var_count }
    }

    /// The set of all vertices which appear in this set for at least one
    /// color.
    pub fn vertices(&self) -> (r: GraphVertices)
        requires
            self.wf(),
        ensures
            r.wf(),
            r.p() == self.p() && r.s() == self.s(),
            r@ == state_projection(self@, self.p(), self.n()),
    {
        proof {
            self.lemma_wf_props();
        }
        let pvars = range_vec(0, self.p_var_count);
        proof {
            lemma_index_range_contains(pvars@, 0, self.p_var_count);
        }
        let out = bdd_exists(&self.bdd, &pvars);
        let ghost p = self.p();
        let ghost n = self.n();
        proof {
            reveal(state_projection);
            assert forall|v: Seq<bool>| #[trigger] bdd_sat(out).contains(v) <==> state_projection(
                self@,
                p,
                n,
            ).contains(v) by {
                if bdd_sat(out).contains(v) {
                    let w = choose|w: Seq<bool>|
                        #[trigger] self@.contains(w) && agrees_outside(v, w, pvars@);
                    lemma_agrees_outside_params(v, w, self.p_var_count, self.s_var_count, pvars@);
                    assert(self@.contains(w) && state_eq(v, w, p));
                }
                if state_projection(self@, p, n).contains(v) {
                    let w = choose|w: Seq<bool>| #[trigger] self@.contains(w) && state_eq(v, w, p);
                    lemma_agrees_outside_params(v, w, self.p_var_count, self.s_var_count, pvars@);
                    assert(self@.contains(w) && agrees_outside(v, w, pvars@));
                }
            }
            assert(bdd_sat(out) =~= state_projection(self@, p, n));
            assert forall|v: Seq<bool>, w: Seq<bool>|
                #[trigger] bdd_sat(out).contains(v) && w.len() == n && #[trigger] state_eq(
                    v,
                    w,
                    p,
                ) implies bdd_sat(out).contains(w) by {
                let u = choose|u: Seq<bool>| #[trigger] self@.contains(u) && state_eq(v, u, p);
                assert(state_eq(w, u, p));
            }
        }
        GraphVertices { bdd: out, p_var_count: self.p_var_count, s_var_count: self.s_var_count }
    }
}

impl GraphColors {
    pub closed spec fn p(&self) -> nat {
        self.p_var_count as nat
    }

    pub closed spec fn s(&self) -> nat {
        self.s_var_count as nat
    }

    pub open spec fn n(&self) -> nat {
        self.p() + self.s()
    }

    pub closed spec fn wf(&self) -> bool {
        &&& bdd_nvars(self.bdd) == self.n()
        &&& vals_ok(bdd_sat(self.bdd), self.n())
        &&& self.n() <= u16::MAX
        &&& state_closed(bdd_sat(self.bdd), self.p(), self.n())
    }

    pub open spec fn compatible(&self, other: &Self) -> bool {
        self.p() == other.p() && self.s() == other.s()
    }

    /// Well-formedness gives a finite, state-closed set of valuations of
    /// the full length.
    pub proof fn lemma_wf_props(&self)
        requires
            self.wf(),
        ensures
            vals_ok(self@, self.n()),
            state_closed(self@, self.p(), self.n()),
            self.n() <= u16::MAX,
    {
    }

    /// Construct a new color set from a given `bdd` and symbolic `context`.
    /// The BDD must not constrain state variables.
    pub fn new(bdd: Bdd, context: &SymbolicContext) -> (r: Self)
        requires
            context.wf(),
            bdd_nvars(bdd) == context.total_spec(),
            vals_ok(bdd_sat(bdd), context.total_spec()),
            state_closed(bdd_sat(bdd), context.p_var_count as nat, context.total_spec()),
        ensures
            r.wf(),
            r.p() == context.p_var_count,
            r.s() == context.s_var_count,
            r@ == bdd_sat(bdd),
    {
        GraphColors { bdd, p_var_count: context.p_var_count, s_var_count: context.s_var_count }
    }

    /// View this color set as a raw BDD.
    pub fn as_bdd(&self) -> (r: &Bdd)
        requires
            self.wf(),
        ensures
            bdd_sat(*r) == self@,
            bdd_nvars(*r) == self.n(),
    {
        &self.bdd
    }

    pub fn union(&self, other: &Self) -> (r: Self)
        requires
            self.wf(),
            other.wf(),
            self.compatible(other),
        ensures
            r.wf(),
            r.compatible(self),
            r@ == self@.union(other@),
    {
        let out = bdd_or(&self.bdd, &other.bdd);
        GraphColors { bdd: out, p_var_count: self.p_var_count, s_var_count: self.s_var_count }
    }

    pub fn intersect(&self, other: &Self) -> (r: Self)
        requires
            self.wf(),
            other.wf(),
            self.compatible(other),
        ensures
            r.wf(),
            r.compatible(self),
            r@ == self@.intersect(other@),
    {
        let out = bdd_and(&self.bdd, &other.bdd);
        GraphColors { bdd: out, p_var_count: self.p_var_count, s_var_count: self.s_var_count }
    }

    pub fn minus(&self, other: &Self) -> (r: Self)
        requires
            self.wf(),
            other.wf(),
            self.compatible(other),
        ensures
            r.wf(),
            r.compatible(self),
            r@ == self@.difference(other@),
    {
        let out = bdd_and_not(&self.bdd, &other.bdd);
        proof {
            assert forall|v: Seq<bool>, w: Seq<bool>|
                #[trigger] bdd_sat(out).contains(v) && w.len() == self.n() && #[trigger] color_eq(
                    v,
                    w,
                    self.p(),
                ) implies bdd_sat(out).contains(w) by {
                assert(self@.contains(w));
                if other@.contains(w) {
                    assert(color_eq(w, v, self.p()));
                    assert(other@.contains(v));
                }
            }
        }
        GraphColors { bdd: out, p_var_count: self.p_var_count, s_var_count: self.s_var_count }
    }

    pub fn is_empty(&self) -> (r: bool)
        requires
            self.wf(),
        ensures
            r <==> self@.is_empty(),
    {
        bdd_is_false(&self.bdd)
    }

    pub fn is_subset(&self, other: &Self) -> (r: bool)
        requires
            self.wf(),
            other.wf(),
            self.compatible(other),
        ensures
            r <==> self@.subset_of(other@),
    {
        let diff = bdd_and_not(&self.bdd, &other.bdd);
        let r = bdd_is_false(&diff);
        proof {
            if self@.subset_of(other@) {
                assert(self@.difference(other@) =~= Set::<Seq<bool>>::empty());
            }
            if bdd_sat(diff) =~= Set::<Seq<bool>>::empty() {
                assert forall|v: Seq<bool>| self@.contains(v) implies other@.contains(v) by {
                    assert(!self@.difference(other@).contains(v));
                }
            }
        }
        r
    }

    /// Pick a single color from this set as a singleton color set, or the
    /// empty set if this set is empty.
    pub fn pick_singleton(&self) -> (r: Self)
        requires
            self.wf(),
        ensures
            r.wf(),
            r.compatible(self),
            r@.subset_of(self@),
            self@.is_empty() ==> r@.is_empty(),
            !self@.is_empty() ==> !r@.is_empty() && one_color(r@, self.p()),
    {
        if self.is_empty() {
            self.clone()
        } else {
            proof {
                self.lemma_wf_props();
            }
            let w_bdd = bdd_witness(&self.bdd);
            let total = self.p_var_count + self.s_var_count;
            let svars = range_vec(self.p_var_count, total);
            proof {
                lemma_index_range_contains(svars@, self.p_var_count, total);
            }
            let out = bdd_exists(&w_bdd, &svars);
            let ghost p = self.p();
            let ghost n = self.n();
            proof {
                let w0 = choose|w0: Seq<bool>| #[trigger] bdd_sat(w_bdd).contains(w0);
                // every member of the projection carries the color of `w0`
                // and therefore lies in the state-closed original set
                assert forall|v: Seq<bool>| #[trigger] bdd_sat(out).contains(v) implies self@
                    .contains(v) && color_eq(v, w0, p) by {
                    let w = choose|w: Seq<bool>|
                        #[trigger] bdd_sat(w_bdd).contains(w) && agrees_outside(v, w, svars@);
                    assert(w == w0);
                    lemma_agrees_outside_states(v, w, self.p_var_count, self.s_var_count, svars@);
                    assert(self@.contains(w0));
                    assert(color_eq(w0, v, p));
                }
                assert forall|v: Seq<bool>, w: Seq<bool>|
                    #[trigger] bdd_sat(out).contains(v) && #[trigger] bdd_sat(out).contains(
                        w,
                    ) implies color_eq(v, w, p) by {
                    assert(color_eq(v, w0, p) && color_eq(w, w0, p));
                }
                // the witness itself survives the projection
                lemma_agrees_outside_states(w0, w0, self.p_var_count, self.s_var_count, svars@);
                assert(bdd_sat(out).contains(w0));
                // state closure of the result
                assert forall|v: Seq<bool>, w: Seq<bool>|
                    #[trigger] bdd_sat(out).contains(v) && w.len() == n && #[trigger] color_eq(
                        v,
                        w,
                        p,
                    ) implies bdd_sat(out).contains(w) by {
                    let u = choose|u: Seq<bool>|
                        #[trigger] bdd_sat(w_bdd).contains(u) && agrees_outside(v, u, svars@);
                    lemma_agrees_outside_states(v, u, self.p_var_count, self.s_var_count, svars@);
                    assert(color_eq(w, u, p));
                    lemma_agrees_outside_states(w, u, self.p_var_count, self.s_var_count, svars@);
                }
            }
            GraphColors { bdd: out, p_var_count: self.p_var_count, s_var_count: self.s_var_count }
        }
    }
}

impl GraphVertices {
    pub closed spec fn p(&self) -> nat {
        self.p_var_count as nat
    }

    pub closed spec fn s(&self) -> nat {
        self.s_var_count as nat
    }

    pub open spec fn n(&self) -> nat {
        self.p() + self.s()
    }

    pub closed spec fn wf(&self) -> bool {
        &&& bdd_nvars(self.bdd) == self.n()
        &&& vals_ok(bdd_sat(self.bdd), self.n())
        &&& self.n() <= u16::MAX
        &&& param_closed(bdd_sat(self.bdd), self.p(), self.n())
    }

    /// View this vertex set as a raw BDD.
    pub fn as_bdd(&self) -> (r: &Bdd)
        requires
            self.wf(),
        ensures
            bdd_sat(*r) == self@,
            bdd_nvars(*r) == self.n(),
    {
        &self.bdd
    }

    pub fn is_empty(&self) -> (r: bool)
        requires
            self.wf(),
        ensures
            r <==> self@.is_empty(),
    {
        bdd_is_false(&self.bdd)
    }
}

} // verus!
