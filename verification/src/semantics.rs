//! Mathematical model of the symbolic asynchronous transition system.
//!
//! The graph is modeled by `GraphSem`: the variable layout, one "enabled"
//! set of valuations per network variable, and the unit set of admissible
//! (state, color) pairs.  A transition fires one network variable whose
//! update is enabled, flipping the corresponding state bit and leaving the
//! color untouched.

use vstd::prelude::*;

verus! {

use crate::bdd_ops::flip_at;
use crate::valuations::color_eq;
use crate::valuations::state_closed;
use crate::bdd_ops::vals_ok;

/// The model of a symbolic asynchronous graph.
pub ghost struct GraphSem {
    /// Number of parameter (color) variables.
    pub p: nat,
    /// Number of state variables, one per network variable.
    pub s: nat,
    /// Per network variable, the valuations whose asynchronous update of
    /// that variable is enabled.
    pub enabled: Seq<Set<Seq<bool>>>,
    /// The unit set: every state combined with every admissible color.
    pub unit: Set<Seq<bool>>,
}

impl GraphSem {
    /// Total number of BDD variables.
    pub open spec fn n(self) -> nat {
        self.p + self.s
    }

    pub open spec fn wf(self) -> bool {
        &&& self.enabled.len() == self.s
        &&& forall|i: int|
            0 <= i < self.s ==> vals_ok(#[trigger] self.enabled[i], self.n())
        &&& vals_ok(self.unit, self.n())
        &&& state_closed(self.unit, self.p, self.n())
        &&& self.n() <= u16::MAX
    }

    /// The BDD variable index of network variable `i`.
    pub open spec fn sv(self, i: int) -> int {
        self.p + i
    }
}

/// Network variable `i` fires in `x`, producing `y`.
pub open spec fn step_via(g: GraphSem, i: int, x: Seq<bool>, y: Seq<bool>) -> bool {
    &&& 0 <= i < g.enabled.len()
    &&& g.enabled[i].contains(x)
    &&& y == flip_at(x, g.sv(i))
}

/// Some network variable fires in `x`, producing `y`.
pub open spec fn step(g: GraphSem, x: Seq<bool>, y: Seq<bool>) -> bool {
    exists|i: int| step_via(g, i, x, y)
}

/// Some network variable among the first `k` fires in `x`, producing `y`.
pub open spec fn step_upto(g: GraphSem, k: int, x: Seq<bool>, y: Seq<bool>) -> bool {
    exists|i: int| i < k && #[trigger] step_via(g, i, x, y)
}

/// On a well-formed graph, a step is a step among the first `s` variables.
pub proof fn lemma_step_upto_full(g: GraphSem, x: Seq<bool>, y: Seq<bool>)
    requires
        g.wf(),
    ensures
        step(g, x, y) <==> step_upto(g, g.s as int, x, y),
{
    if step(g, x, y) {
        let i = choose|i: int| step_via(g, i, x, y);
        assert(i < g.s && step_via(g, i, x, y));
    }
    if step_upto(g, g.s as int, x, y) {
        let i = choose|i: int| i < g.s as int && #[trigger] step_via(g, i, x, y);
        assert(step_via(g, i, x, y));
    }
}

/// Successors of `s` under one transition.
pub open spec fn post_sem(g: GraphSem, s: Set<Seq<bool>>) -> Set<Seq<bool>> {
    Set::new(|y: Seq<bool>| exists|x: Seq<bool>| #[trigger] s.contains(x) && step(g, x, y))
}

/// Predecessors of `s` under one transition.
pub open spec fn pre_sem(g: GraphSem, s: Set<Seq<bool>>) -> Set<Seq<bool>> {
    Set::new(|x: Seq<bool>| exists|y: Seq<bool>| #[trigger] s.contains(y) && step(g, x, y))
}

/// Members of `s` with some enabled transition.
pub open spec fn can_post_sem(g: GraphSem, s: Set<Seq<bool>>) -> Set<Seq<bool>> {
    Set::new(
        |x: Seq<bool>| s.contains(x) && exists|y: Seq<bool>| #[trigger] step(g, x, y),
    )
}

/// Members of `s` with some predecessor (anywhere).
pub open spec fn can_pre_sem(g: GraphSem, s: Set<Seq<bool>>) -> Set<Seq<bool>> {
    Set::new(
        |x: Seq<bool>| s.contains(x) && exists|w: Seq<bool>| #[trigger] step(g, w, x),
    )
}

/// Members of `s` with some successor inside `s`.
pub open spec fn can_post_within_sem(g: GraphSem, s: Set<Seq<bool>>) -> Set<Seq<bool>> {
    Set::new(
        |x: Seq<bool>| s.contains(x) && exists|y: Seq<bool>| #[trigger] s.contains(y) && step(
            g,
            x,
            y,
        ),
    )
}

/// Members of `s` with some successor outside `s`.
pub open spec fn can_post_out_sem(g: GraphSem, s: Set<Seq<bool>>) -> Set<Seq<bool>> {
    Set::new(
        |x: Seq<bool>| s.contains(x) && exists|y: Seq<bool>| !#[trigger] s.contains(y) && step(
            g,
            x,
            y,
        ),
    )
}

/// Members of `s` with some predecessor inside `s`.
pub open spec fn can_pre_within_sem(g: GraphSem, s: Set<Seq<bool>>) -> Set<Seq<bool>> {
    Set::new(
        |x: Seq<bool>| s.contains(x) && exists|w: Seq<bool>| #[trigger] s.contains(w) && step(
            g,
            w,
            x,
        ),
    )
}

/// Members of `s` with some predecessor outside `s`.
pub open spec fn can_pre_out_sem(g: GraphSem, s: Set<Seq<bool>>) -> Set<Seq<bool>> {
    Set::new(
        |x: Seq<bool>| s.contains(x) && exists|w: Seq<bool>| !#[trigger] s.contains(w) && step(
            g,
            w,
            x,
        ),
    )
}

/// Members of `s` all of whose successors stay inside `s`, the states with
/// no successor at all included.
pub open spec fn will_post_within_sem(g: GraphSem, s: Set<Seq<bool>>) -> Set<Seq<bool>> {
    Set::new(
        |x: Seq<bool>| s.contains(x) && forall|y: Seq<bool>| #[trigger] step(g, x, y)
            ==> s.contains(y),
    )
}

/// Members of `s` all of whose successors leave `s`, the states with no
/// successor at all included.
pub open spec fn will_post_out_sem(g: GraphSem, s: Set<Seq<bool>>) -> Set<Seq<bool>> {
    Set::new(
        |x: Seq<bool>| s.contains(x) && forall|y: Seq<bool>| #[trigger] step(g, x, y)
            ==> !s.contains(y),
    )
}

/// Members of `s` all of whose predecessors stay inside `s`, the states
/// with no predecessor at all included.
pub open spec fn will_pre_within_sem(g: GraphSem, s: Set<Seq<bool>>) -> Set<Seq<bool>> {
    Set::new(
        |x: Seq<bool>| s.contains(x) && forall|w: Seq<bool>| #[trigger] step(g, w, x)
            ==> s.contains(w),
    )
}

/// Members of `s` all of whose predecessors lie outside `s`, the states
/// with no predecessor at all included.
pub open spec fn will_pre_out_sem(g: GraphSem, s: Set<Seq<bool>>) -> Set<Seq<bool>> {
    Set::new(
        |x: Seq<bool>| s.contains(x) && forall|w: Seq<bool>| #[trigger] step(g, w, x)
            ==> !s.contains(w),
    )
}

/// Successors of `s` by firing network variable `i`.
pub open spec fn var_post_sem(g: GraphSem, i: int, s: Set<Seq<bool>>) -> Set<Seq<bool>> {
    Set::new(
        |y: Seq<bool>| exists|x: Seq<bool>| #[trigger] s.contains(x) && step_via(g, i, x, y),
    )
}

/// Predecessors of `s` by firing network variable `i`.
pub open spec fn var_pre_sem(g: GraphSem, i: int, s: Set<Seq<bool>>) -> Set<Seq<bool>> {
    Set::new(
        |x: Seq<bool>| exists|y: Seq<bool>| #[trigger] s.contains(y) && step_via(g, i, x, y),
    )
}

/// Predecessors of `s` by firing network variable `i` that lie outside `s`.
pub open spec fn var_pre_out_sem(g: GraphSem, i: int, s: Set<Seq<bool>>) -> Set<Seq<bool>> {
    Set::new(
        |x: Seq<bool>| !s.contains(x) && exists|y: Seq<bool>| #[trigger] s.contains(y) && step_via(
            g,
            i,
            x,
            y,
        ),
    )
}

/// Members of `s` that can fire network variable `i`.
pub open spec fn var_can_post_sem(g: GraphSem, i: int, s: Set<Seq<bool>>) -> Set<Seq<bool>> {
    Set::new(
        |x: Seq<bool>| s.contains(x) && exists|y: Seq<bool>| #[trigger] step_via(g, i, x, y),
    )
}

/// Members of `s` with a predecessor by network variable `i`.
pub open spec fn var_can_pre_sem(g: GraphSem, i: int, s: Set<Seq<bool>>) -> Set<Seq<bool>> {
    Set::new(
        |x: Seq<bool>| s.contains(x) && exists|w: Seq<bool>| #[trigger] step_via(g, i, w, x),
    )
}

/// Members of `s` that can fire network variable `i` into `s`.
pub open spec fn var_can_post_within_sem(g: GraphSem, i: int, s: Set<Seq<bool>>) -> Set<
    Seq<bool>,
> {
    Set::new(
        |x: Seq<bool>| s.contains(x) && exists|y: Seq<bool>| #[trigger] s.contains(y) && step_via(
            g,
            i,
            x,
            y,
        ),
    )
}

/// Members of `s` that can fire network variable `i` out of `s`.
pub open spec fn var_can_post_out_sem(g: GraphSem, i: int, s: Set<Seq<bool>>) -> Set<Seq<bool>> {
    Set::new(
        |x: Seq<bool>| s.contains(x) && exists|y: Seq<bool>| !#[trigger] s.contains(y)
            && step_via(g, i, x, y),
    )
}

/// Members of `s` with a predecessor by network variable `i` inside `s`.
pub open spec fn var_can_pre_within_sem(g: GraphSem, i: int, s: Set<Seq<bool>>) -> Set<
    Seq<bool>,
> {
    Set::new(
        |x: Seq<bool>| s.contains(x) && exists|w: Seq<bool>| #[trigger] s.contains(w) && step_via(
            g,
            i,
            w,
            x,
        ),
    )
}

/// Members of `s` with a predecessor by network variable `i` outside `s`.
pub open spec fn var_can_pre_out_sem(g: GraphSem, i: int, s: Set<Seq<bool>>) -> Set<Seq<bool>> {
    Set::new(
        |x: Seq<bool>| s.contains(x) && exists|w: Seq<bool>| !#[trigger] s.contains(w)
            && step_via(g, i, w, x),
    )
}

/// Flipping the same variable twice gives the valuation back.
pub proof fn lemma_flip_involution(v: Seq<bool>, i: int)
    requires
        0 <= i < v.len(),
    ensures
        flip_at(flip_at(v, i), i) == v,
{
    assert(flip_at(flip_at(v, i), i) =~= v);
}

/// A transition changes one state bit only: it preserves the color and the
/// valuation length.
pub proof fn lemma_step_color(g: GraphSem, x: Seq<bool>, y: Seq<bool>)
    requires
        g.wf(),
        step(g, x, y),
    ensures
        x.len() == g.n(),
        y.len() == g.n(),
        color_eq(x, y, g.p),
{
    let i = choose|i: int| step_via(g, i, x, y);
    assert(g.enabled[i].contains(x));
    assert(x.len() == g.n());
    assert(y.subrange(0, g.p as int) =~= x.subrange(0, g.p as int));
}

/// A non-empty sequence of valuations, all inside `u`, linked by
/// transitions.
pub open spec fn is_path_in(g: GraphSem, u: Set<Seq<bool>>, pth: Seq<Seq<bool>>) -> bool {
    &&& pth.len() >= 1
    &&& forall|i: int| 0 <= i < pth.len() ==> u.contains(#[trigger] pth[i])
    &&& forall|i: int| 0 <= i < pth.len() - 1 ==> step(g, #[trigger] pth[i], pth[i + 1])
}

/// `y` is reachable from `x` by a path lying inside `u`.
pub open spec fn reaches_within(g: GraphSem, u: Set<Seq<bool>>, x: Seq<bool>, y: Seq<bool>) -> bool {
    exists|pth: Seq<Seq<bool>>|
        #[trigger] is_path_in(g, u, pth) && pth[0] == x && pth[pth.len() - 1] == y
}

/// The forward reachable set of `pivots` inside `u`.
#[verifier::opaque]
pub open spec fn fwd_reach(g: GraphSem, u: Set<Seq<bool>>, pivots: Set<Seq<bool>>) -> Set<
    Seq<bool>,
> {
    Set::new(
        |y: Seq<bool>| exists|x: Seq<bool>| #[trigger] pivots.contains(x) && reaches_within(
            g,
            u,
            x,
            y,
        ),
    )
}

/// The backward reachable set of `pivots` inside `u`.
#[verifier::opaque]
pub open spec fn bwd_reach(g: GraphSem, u: Set<Seq<bool>>, pivots: Set<Seq<bool>>) -> Set<
    Seq<bool>,
> {
    Set::new(
        |x: Seq<bool>| exists|y: Seq<bool>| #[trigger] pivots.contains(y) && reaches_within(
            g,
            u,
            x,
            y,
        ),
    )
}

/// Instantiation handle for `trim_good`: semantically just membership.
/// Quantifiers over good sets trigger on this name rather than on
/// `contains`, so that the witnesses a good set produces do not fire the
/// quantifier again.
pub open spec fn live(t: Set<Seq<bool>>, x: Seq<bool>) -> bool {
    t.contains(x)
}

/// Every member of `t` has a predecessor inside `t`.
pub open spec fn all_have_pred_in(g: GraphSem, t: Set<Seq<bool>>) -> bool {
    forall|x: Seq<bool>| #[trigger] live(t, x) ==> exists|w: Seq<bool>|
        #[trigger] t.contains(w) && step(g, w, x)
}

/// Every member of `t` has a successor inside `t`.
pub open spec fn all_have_succ_in(g: GraphSem, t: Set<Seq<bool>>) -> bool {
    forall|x: Seq<bool>| #[trigger] live(t, x) ==> exists|y: Seq<bool>|
        #[trigger] t.contains(y) && step(g, x, y)
}

/// A "good" set for trimming: every member has an in-set predecessor and an
/// in-set successor, so every member may lie on a cycle.
pub open spec fn trim_good(g: GraphSem, t: Set<Seq<bool>>) -> bool {
    all_have_pred_in(g, t) && all_have_succ_in(g, t)
}

/// A member of a good set has an in-set predecessor and successor.
pub proof fn lemma_trim_good_member(g: GraphSem, t: Set<Seq<bool>>, x: Seq<bool>)
    requires
        trim_good(g, t),
        t.contains(x),
    ensures
        exists|w: Seq<bool>| #[trigger] t.contains(w) && step(g, w, x),
        exists|y: Seq<bool>| #[trigger] t.contains(y) && step(g, x, y),
{
    assert(live(t, x));
}

/// The trim fixpoint of `s`: the largest good subset of `s`.
pub open spec fn trim_sem(g: GraphSem, s: Set<Seq<bool>>) -> Set<Seq<bool>> {
    Set::new(
        |x: Seq<bool>| exists|t: Set<Seq<bool>>|
            t.subset_of(s) && #[trigger] trim_good(g, t) && t.contains(x),
    )
}

/// The trim fixpoint is a subset of its argument.
pub proof fn lemma_trim_sem_subset(g: GraphSem, s: Set<Seq<bool>>)
    ensures
        trim_sem(g, s).subset_of(s),
{
    assert forall|x: Seq<bool>| trim_sem(g, s).contains(x) implies s.contains(x) by {
        let t = choose|t: Set<Seq<bool>>|
            t.subset_of(s) && #[trigger] trim_good(g, t) && t.contains(x);
        assert(t.contains(x) && t.subset_of(s));
    }
}

/// The trim fixpoint is itself good: every survivor keeps an in-set
/// predecessor and successor.
pub proof fn lemma_trim_sem_good(g: GraphSem, s: Set<Seq<bool>>)
    ensures
        trim_good(g, trim_sem(g, s)),
{
    let r = trim_sem(g, s);
    assert forall|x: Seq<bool>| #[trigger] live(r, x) implies (exists|w: Seq<bool>|
        #[trigger] r.contains(w) && step(g, w, x)) && (exists|y: Seq<bool>|
        #[trigger] r.contains(y) && step(g, x, y)) by {
        let t = choose|t: Set<Seq<bool>>|
            t.subset_of(s) && #[trigger] trim_good(g, t) && t.contains(x);
        lemma_trim_good_member(g, t, x);
        let w = choose|w: Seq<bool>| #[trigger] t.contains(w) && step(g, w, x);
        let y = choose|y: Seq<bool>| #[trigger] t.contains(y) && step(g, x, y);
        assert(t.subset_of(s) && trim_good(g, t) && t.contains(w));
        assert(t.subset_of(s) && trim_good(g, t) && t.contains(y));
        assert(r.contains(w) && step(g, w, x));
        assert(r.contains(y) && step(g, x, y));
    }
}

/// Any good subset of `s` lies inside the trim fixpoint of `s`.
pub proof fn lemma_trim_sem_largest(g: GraphSem, s: Set<Seq<bool>>, t: Set<Seq<bool>>)
    requires
        t.subset_of(s),
        trim_good(g, t),
    ensures
        t.subset_of(trim_sem(g, s)),
{
    assert forall|x: Seq<bool>| t.contains(x) implies trim_sem(g, s).contains(x) by {
        assert(t.subset_of(s) && trim_good(g, t) && t.contains(x));
    }
}

/// Trimming is a projection: applied to its own result it changes nothing.
pub proof fn lemma_trim_sem_idempotent(g: GraphSem, s: Set<Seq<bool>>)
    ensures
        trim_sem(g, trim_sem(g, s)) == trim_sem(g, s),
{
    let r = trim_sem(g, s);
    lemma_trim_sem_subset(g, r);
    lemma_trim_sem_good(g, s);
    assert(r.subset_of(r));
    lemma_trim_sem_largest(g, r, r);
    assert(trim_sem(g, r) =~= r);
}


/// A strict subset of a finite set has strictly smaller cardinality.
pub proof fn lemma_strict_subset_len(a: Set<Seq<bool>>, b: Set<Seq<bool>>)
    requires
        b.finite(),
        a.subset_of(b),
        !b.subset_of(a),
    ensures
        a.len() < b.len(),
{
    let x = choose|x: Seq<bool>| b.contains(x) && !a.contains(x);
    assert(a.subset_of(b.remove(x)));
    vstd::set_lib::lemma_len_subset(a, b.remove(x));
}

/// Trimming is monotone in its argument.
pub proof fn lemma_trim_sem_monotone(g: GraphSem, a: Set<Seq<bool>>, b: Set<Seq<bool>>)
    requires
        a.subset_of(b),
    ensures
        trim_sem(g, a).subset_of(trim_sem(g, b)),
{
    assert forall|x: Seq<bool>| trim_sem(g, a).contains(x) implies trim_sem(g, b).contains(x) by {
        let t = choose|t: Set<Seq<bool>>|
            t.subset_of(a) && #[trigger] trim_good(g, t) && t.contains(x);
        assert(t.subset_of(b) && trim_good(g, t) && t.contains(x));
    }
}

/// One predecessor-phase pass of trimming: membership shrinks, while the
/// trim fixpoint is unchanged.
pub proof fn lemma_trim_phase_pred(g: GraphSem, cur: Set<Seq<bool>>)
    ensures
        post_sem(g, pre_sem(g, cur).intersect(cur)).intersect(cur).subset_of(cur),
        trim_sem(g, post_sem(g, pre_sem(g, cur).intersect(cur)).intersect(cur)) == trim_sem(
            g,
            cur,
        ),
{
    let nxt = post_sem(g, pre_sem(g, cur).intersect(cur)).intersect(cur);
    lemma_trim_sem_monotone(g, nxt, cur);
    assert forall|x: Seq<bool>| trim_sem(g, cur).contains(x) implies trim_sem(g, nxt).contains(
        x,
    ) by {
        let t = choose|t: Set<Seq<bool>>|
            t.subset_of(cur) && #[trigger] trim_good(g, t) && t.contains(x);
        assert forall|z: Seq<bool>| t.contains(z) implies nxt.contains(z) by {
            lemma_trim_good_member(g, t, z);
            let w = choose|w: Seq<bool>| #[trigger] t.contains(w) && step(g, w, z);
            assert(cur.contains(z) && step(g, w, z));
            assert(pre_sem(g, cur).contains(w));
            assert(pre_sem(g, cur).intersect(cur).contains(w) && step(g, w, z));
            assert(post_sem(g, pre_sem(g, cur).intersect(cur)).contains(z));
        }
        assert(t.subset_of(nxt) && trim_good(g, t) && t.contains(x));
    }
    assert(trim_sem(g, nxt) =~= trim_sem(g, cur));
}

/// One successor-phase pass of trimming: membership shrinks, the trim
/// fixpoint is unchanged, and the predecessor property survives the pass.
pub proof fn lemma_trim_phase_succ(g: GraphSem, cur: Set<Seq<bool>>)
    ensures
        pre_sem(g, post_sem(g, cur).intersect(cur)).intersect(cur).subset_of(cur),
        trim_sem(g, pre_sem(g, post_sem(g, cur).intersect(cur)).intersect(cur)) == trim_sem(
            g,
            cur,
        ),
        all_have_pred_in(g, cur) ==> all_have_pred_in(
            g,
            pre_sem(g, post_sem(g, cur).intersect(cur)).intersect(cur),
        ),
{
    let nxt = pre_sem(g, post_sem(g, cur).intersect(cur)).intersect(cur);
    lemma_trim_sem_monotone(g, nxt, cur);
    assert forall|x: Seq<bool>| trim_sem(g, cur).contains(x) implies trim_sem(g, nxt).contains(
        x,
    ) by {
        let t = choose|t: Set<Seq<bool>>|
            t.subset_of(cur) && #[trigger] trim_good(g, t) && t.contains(x);
        assert forall|z: Seq<bool>| t.contains(z) implies nxt.contains(z) by {
            lemma_trim_good_member(g, t, z);
            let y = choose|y: Seq<bool>| #[trigger] t.contains(y) && step(g, z, y);
            assert(cur.contains(z) && step(g, z, y));
            assert(post_sem(g, cur).contains(y));
            assert(post_sem(g, cur).intersect(cur).contains(y) && step(g, z, y));
            assert(pre_sem(g, post_sem(g, cur).intersect(cur)).contains(z));
        }
        assert(t.subset_of(nxt) && trim_good(g, t) && t.contains(x));
    }
    assert(trim_sem(g, nxt) =~= trim_sem(g, cur));
    if all_have_pred_in(g, cur) {
        assert forall|x: Seq<bool>| #[trigger] live(nxt, x) implies exists|w: Seq<bool>|
            #[trigger] nxt.contains(w) && step(g, w, x) by {
            assert(cur.contains(x));
            assert(live(cur, x));
            let w = choose|w: Seq<bool>| #[trigger] cur.contains(w) && step(g, w, x);
            assert(cur.contains(x) && step(g, w, x));
            assert(post_sem(g, cur).contains(x));
            assert(post_sem(g, cur).intersect(cur).contains(x) && step(g, w, x));
            assert(pre_sem(g, post_sem(g, cur).intersect(cur)).contains(w));
            assert(nxt.contains(w) && step(g, w, x));
        }
    }
}

/// At the exit of the predecessor phase, every member of `cur` has an
/// in-set predecessor.
#[verifier::rlimit(100)]
pub proof fn lemma_trim_exit_pred(g: GraphSem, cur: Set<Seq<bool>>)
    requires
        cur.subset_of(post_sem(g, pre_sem(g, cur).intersect(cur)).intersect(cur)),
    ensures
        all_have_pred_in(g, cur),
{
    assert forall|x: Seq<bool>| #[trigger] live(cur, x) implies exists|w: Seq<bool>|
        #[trigger] cur.contains(w) && step(g, w, x) by {
        assert(cur.contains(x));
        assert(post_sem(g, pre_sem(g, cur).intersect(cur)).contains(x));
        let w = choose|w: Seq<bool>|
            #[trigger] pre_sem(g, cur).intersect(cur).contains(w) && step(g, w, x);
        assert(cur.contains(w) && step(g, w, x));
    }
}

/// At the exit of the successor phase, every member of `cur` has an
/// in-set successor.
#[verifier::rlimit(100)]
pub proof fn lemma_trim_exit_succ(g: GraphSem, cur: Set<Seq<bool>>)
    requires
        cur.subset_of(pre_sem(g, post_sem(g, cur).intersect(cur)).intersect(cur)),
    ensures
        all_have_succ_in(g, cur),
{
    assert forall|x: Seq<bool>| #[trigger] live(cur, x) implies exists|y: Seq<bool>|
        #[trigger] cur.contains(y) && step(g, x, y) by {
        assert(cur.contains(x));
        assert(pre_sem(g, post_sem(g, cur).intersect(cur)).contains(x));
        let y = choose|y: Seq<bool>|
            #[trigger] post_sem(g, cur).intersect(cur).contains(y) && step(g, x, y);
        assert(cur.contains(y) && step(g, x, y));
    }
}


/// A member of `u` reaches itself within `u`.
pub proof fn lemma_reaches_self(g: GraphSem, u: Set<Seq<bool>>, x: Seq<bool>)
    requires
        u.contains(x),
    ensures
        reaches_within(g, u, x, x),
{
    let pth = seq![x];
    assert(is_path_in(g, u, pth));
    assert(pth[0] == x && pth[pth.len() - 1] == x);
}

/// Reachability within `u` extends along one more transition.
pub proof fn lemma_reaches_extend(
    g: GraphSem,
    u: Set<Seq<bool>>,
    x: Seq<bool>,
    y: Seq<bool>,
    z: Seq<bool>,
)
    requires
        reaches_within(g, u, x, y),
        step(g, y, z),
        u.contains(z),
    ensures
        reaches_within(g, u, x, z),
{
    let pth = choose|pth: Seq<Seq<bool>>|
        #[trigger] is_path_in(g, u, pth) && pth[0] == x && pth[pth.len() - 1] == y;
    let ext = pth.push(z);
    assert forall|i: int| 0 <= i < ext.len() implies u.contains(#[trigger] ext[i]) by {
        if i < pth.len() {
            assert(ext[i] == pth[i]);
        }
    }
    assert forall|i: int| 0 <= i < ext.len() - 1 implies #[trigger] step(g, ext[i], ext[i + 1]) by {
        if i < pth.len() - 1 {
            assert(ext[i] == pth[i] && ext[i + 1] == pth[i + 1]);
        } else {
            assert(ext[i] == pth[pth.len() - 1] && ext[i + 1] == z);
        }
    }
    assert(is_path_in(g, u, ext));
    assert(ext[0] == x && ext[ext.len() - 1] == z);
}

/// Reachability within `u` extends backward along one more transition.
pub proof fn lemma_reaches_prepend(
    g: GraphSem,
    u: Set<Seq<bool>>,
    x: Seq<bool>,
    y: Seq<bool>,
    z: Seq<bool>,
)
    requires
        u.contains(x),
        step(g, x, y),
        reaches_within(g, u, y, z),
    ensures
        reaches_within(g, u, x, z),
{
    let pth = choose|pth: Seq<Seq<bool>>|
        #[trigger] is_path_in(g, u, pth) && pth[0] == y && pth[pth.len() - 1] == z;
    let ext = seq![x] + pth;
    assert forall|i: int| 0 <= i < ext.len() implies u.contains(#[trigger] ext[i]) by {
        if i >= 1 {
            assert(ext[i] == pth[i - 1]);
        } else {
            assert(ext[0] == x);
        }
    }
    assert forall|i: int| 0 <= i < ext.len() - 1 implies #[trigger] step(g, ext[i], ext[i + 1]) by {
        if i >= 1 {
            assert(ext[i] == pth[i - 1] && ext[i + 1] == pth[i]);
            assert(step(g, pth[i - 1], pth[i]));
        } else {
            assert(ext[0] == x && ext[1] == pth[0]);
        }
    }
    assert(is_path_in(g, u, ext));
    assert(ext[0] == x && ext[ext.len() - 1] == z);
}

/// The forward reachable set stays inside `u`.
pub proof fn lemma_fwd_reach_subset(g: GraphSem, u: Set<Seq<bool>>, pivots: Set<Seq<bool>>)
    ensures
        fwd_reach(g, u, pivots).subset_of(u),
{
    reveal(fwd_reach);
    assert forall|y: Seq<bool>| fwd_reach(g, u, pivots).contains(y) implies u.contains(y) by {
        let x = choose|x: Seq<bool>| #[trigger] pivots.contains(x) && reaches_within(g, u, x, y);
        let pth = choose|pth: Seq<Seq<bool>>|
            #[trigger] is_path_in(g, u, pth) && pth[0] == x && pth[pth.len() - 1] == y;
        assert(u.contains(pth[pth.len() - 1]));
    }
}

/// The backward reachable set stays inside `u`.
pub proof fn lemma_bwd_reach_subset(g: GraphSem, u: Set<Seq<bool>>, pivots: Set<Seq<bool>>)
    ensures
        bwd_reach(g, u, pivots).subset_of(u),
{
    reveal(bwd_reach);
    assert forall|x: Seq<bool>| bwd_reach(g, u, pivots).contains(x) implies u.contains(x) by {
        let y = choose|y: Seq<bool>| #[trigger] pivots.contains(y) && reaches_within(g, u, x, y);
        let pth = choose|pth: Seq<Seq<bool>>|
            #[trigger] is_path_in(g, u, pth) && pth[0] == x && pth[pth.len() - 1] == y;
        assert(u.contains(pth[0]));
    }
}

/// Pivots inside `u` are forward and backward reachable from themselves.
pub proof fn lemma_reach_contains_pivots(g: GraphSem, u: Set<Seq<bool>>, pivots: Set<Seq<bool>>)
    requires
        pivots.subset_of(u),
    ensures
        pivots.subset_of(fwd_reach(g, u, pivots)),
        pivots.subset_of(bwd_reach(g, u, pivots)),
{
    reveal(fwd_reach);
    reveal(bwd_reach);
    assert forall|x: Seq<bool>| pivots.contains(x) implies fwd_reach(g, u, pivots).contains(
        x,
    ) && bwd_reach(g, u, pivots).contains(x) by {
        lemma_reaches_self(g, u, x);
        assert(pivots.contains(x) && reaches_within(g, u, x, x));
    }
}

/// Walking one prefix of a path through a forward-closed set.
proof fn lemma_path_prefix_in_closed(
    g: GraphSem,
    u: Set<Seq<bool>>,
    a: Set<Seq<bool>>,
    pth: Seq<Seq<bool>>,
    i: int,
)
    requires
        is_path_in(g, u, pth),
        a.contains(pth[0]),
        forall|x: Seq<bool>, y: Seq<bool>|
            #[trigger] a.contains(x) && #[trigger] step(g, x, y) && u.contains(y)
                ==> a.contains(y),
        0 <= i < pth.len(),
    ensures
        a.contains(pth[i]),
    decreases i,
{
    if i > 0 {
        lemma_path_prefix_in_closed(g, u, a, pth, i - 1);
        assert(step(g, pth[i - 1], pth[i]));
        assert(u.contains(pth[i]));
    }
}

/// A set holding the pivots and closed under transitions within `u` holds
/// the whole forward reachable set.
pub proof fn lemma_fwd_reach_in_closed(
    g: GraphSem,
    u: Set<Seq<bool>>,
    pivots: Set<Seq<bool>>,
    a: Set<Seq<bool>>,
)
    requires
        pivots.subset_of(a),
        forall|x: Seq<bool>, y: Seq<bool>|
            #[trigger] a.contains(x) && #[trigger] step(g, x, y) && u.contains(y)
                ==> a.contains(y),
    ensures
        fwd_reach(g, u, pivots).subset_of(a),
{
    reveal(fwd_reach);
    assert forall|y: Seq<bool>| fwd_reach(g, u, pivots).contains(y) implies a.contains(y) by {
        let x = choose|x: Seq<bool>| #[trigger] pivots.contains(x) && reaches_within(g, u, x, y);
        let pth = choose|pth: Seq<Seq<bool>>|
            #[trigger] is_path_in(g, u, pth) && pth[0] == x && pth[pth.len() - 1] == y;
        lemma_path_prefix_in_closed(g, u, a, pth, pth.len() - 1);
    }
}

/// The forward reachable set is the unique fixpoint of forward stepping:
/// any sound set that holds the pivots and can take no further step inside
/// `u` is exactly `fwd_reach`, whatever order its states were found in.
/// This is why the breadth-first, per-color lockstep and per-variable
/// saturation schedules all converge to the same forward set.
pub proof fn lemma_fwd_reach_unique(
    g: GraphSem,
    u: Set<Seq<bool>>,
    pivots: Set<Seq<bool>>,
    f: Set<Seq<bool>>,
)
    requires
        pivots.subset_of(f),
        f.subset_of(fwd_reach(g, u, pivots)),
        forall|x: Seq<bool>, y: Seq<bool>|
            #[trigger] f.contains(x) && #[trigger] step(g, x, y) && u.contains(y) ==> f.contains(
                y,
            ),
    ensures
        f == fwd_reach(g, u, pivots),
{
    lemma_fwd_reach_in_closed(g, u, pivots, f);
    assert(f =~= fwd_reach(g, u, pivots));
}

/// The backward mirror of `lemma_fwd_reach_unique`.
pub proof fn lemma_bwd_reach_unique(
    g: GraphSem,
    u: Set<Seq<bool>>,
    pivots: Set<Seq<bool>>,
    b: Set<Seq<bool>>,
)
    requires
        pivots.subset_of(b),
        b.subset_of(bwd_reach(g, u, pivots)),
        forall|x: Seq<bool>, y: Seq<bool>|
            #[trigger] b.contains(y) && #[trigger] step(g, x, y) && u.contains(x) ==> b.contains(
                x,
            ),
    ensures
        b == bwd_reach(g, u, pivots),
{
    lemma_bwd_reach_in_closed(g, u, pivots, b);
    assert(b =~= bwd_reach(g, u, pivots));
}

/// Walking one suffix of a path through a backward-closed set.
proof fn lemma_path_suffix_in_closed(
    g: GraphSem,
    u: Set<Seq<bool>>,
    a: Set<Seq<bool>>,
    pth: Seq<Seq<bool>>,
    i: int,
)
    requires
        is_path_in(g, u, pth),
        a.contains(pth[pth.len() - 1]),
        forall|x: Seq<bool>, y: Seq<bool>|
            #[trigger] a.contains(y) && #[trigger] step(g, x, y) && u.contains(x)
                ==> a.contains(x),
        0 <= i < pth.len(),
    ensures
        a.contains(pth[i]),
    decreases pth.len() - i,
{
    if i < pth.len() - 1 {
        lemma_path_suffix_in_closed(g, u, a, pth, i + 1);
        assert(step(g, pth[i], pth[i + 1]));
        assert(u.contains(pth[i]));
    }
}

/// A set holding the pivots and closed under predecessors within `u` holds
/// the whole backward reachable set.
pub proof fn lemma_bwd_reach_in_closed(
    g: GraphSem,
    u: Set<Seq<bool>>,
    pivots: Set<Seq<bool>>,
    a: Set<Seq<bool>>,
)
    requires
        pivots.subset_of(a),
        forall|x: Seq<bool>, y: Seq<bool>|
            #[trigger] a.contains(y) && #[trigger] step(g, x, y) && u.contains(x)
                ==> a.contains(x),
    ensures
        bwd_reach(g, u, pivots).subset_of(a),
{
    reveal(bwd_reach);
    assert forall|x: Seq<bool>| bwd_reach(g, u, pivots).contains(x) implies a.contains(x) by {
        let y = choose|y: Seq<bool>| #[trigger] pivots.contains(y) && reaches_within(g, u, x, y);
        let pth = choose|pth: Seq<Seq<bool>>|
            #[trigger] is_path_in(g, u, pth) && pth[0] == x && pth[pth.len() - 1] == y;
        lemma_path_suffix_in_closed(g, u, a, pth, 0);
    }
}

/// The cardinality of a union of disjoint finite sets is the sum of the
/// cardinalities.
pub proof fn lemma_disjoint_union_len(a: Set<Seq<bool>>, b: Set<Seq<bool>>)
    requires
        a.finite(),
        b.finite(),
        a.disjoint(b),
    ensures
        a.union(b).len() == a.len() + b.len(),
    decreases a.len(),
{
    if a.is_empty() {
        assert(a.union(b) =~= b);
        assert(a.len() == 0) by {
            if a.len() != 0 {
                assert(a.contains(a.choose()));
            }
        }
    } else {
        let x = a.choose();
        assert(a.contains(x));
        lemma_disjoint_union_len(a.remove(x), b);
        assert(a.remove(x).union(b) =~= a.union(b).remove(x));
        assert(a.union(b).contains(x));
    }
}


/// The set of valuations whose flip at `i` lies in `s`.
pub open spec fn flip_set(s: Set<Seq<bool>>, i: int) -> Set<Seq<bool>> {
    Set::new(|v: Seq<bool>| s.contains(flip_at(v, i)))
}

/// Operator duality: predecessor and successor operators of one variable
/// are exchanged by flipping that variable's state bit.  The members of
/// `s` with a predecessor via variable `i` are exactly the successors via
/// `i` of the flipped set, and the members of `s` that can fire `i` are
/// exactly the predecessors via `i` of the flipped set.
pub proof fn lemma_operator_duality(g: GraphSem, i: int, s: Set<Seq<bool>>)
    requires
        g.wf(),
        0 <= i < g.s,
    ensures
        var_can_pre_sem(g, i, s) == var_post_sem(g, i, flip_set(s, g.sv(i))),
        var_can_post_sem(g, i, s) == var_pre_sem(g, i, flip_set(s, g.sv(i))),
{
    let fs = flip_set(s, g.sv(i));
    assert forall|v: Seq<bool>| var_can_pre_sem(g, i, s).contains(v) <==> var_post_sem(
        g,
        i,
        fs,
    ).contains(v) by {
        if var_can_pre_sem(g, i, s).contains(v) {
            let w = choose|w: Seq<bool>| #[trigger] step_via(g, i, w, v);
            assert(g.enabled[i].contains(w));
            lemma_flip_involution(w, g.sv(i));
            assert(fs.contains(w));
            assert(fs.contains(w) && step_via(g, i, w, v));
        }
        if var_post_sem(g, i, fs).contains(v) {
            let x = choose|x: Seq<bool>| #[trigger] fs.contains(x) && step_via(g, i, x, v);
            assert(g.enabled[i].contains(x));
            lemma_flip_involution(x, g.sv(i));
            assert(s.contains(v));
            assert(step_via(g, i, x, v));
        }
    }
    assert(var_can_pre_sem(g, i, s) =~= var_post_sem(g, i, fs));
    assert forall|v: Seq<bool>| var_can_post_sem(g, i, s).contains(v) <==> var_pre_sem(
        g,
        i,
        fs,
    ).contains(v) by {
        if var_can_post_sem(g, i, s).contains(v) {
            let y = choose|y: Seq<bool>| #[trigger] step_via(g, i, v, y);
            assert(g.enabled[i].contains(v));
            lemma_flip_involution(v, g.sv(i));
            assert(fs.contains(y));
            assert(fs.contains(y) && step_via(g, i, v, y));
        }
        if var_pre_sem(g, i, fs).contains(v) {
            let y = choose|y: Seq<bool>| #[trigger] fs.contains(y) && step_via(g, i, v, y);
            assert(g.enabled[i].contains(v));
            lemma_flip_involution(v, g.sv(i));
            assert(s.contains(v));
            assert(step_via(g, i, v, y));
        }
    }
    assert(var_can_post_sem(g, i, s) =~= var_pre_sem(g, i, fs));
}

/// `u` holds a cycle: a path within `u` of at least one transition that
/// returns to its start.
pub open spec fn has_cycle(g: GraphSem, u: Set<Seq<bool>>) -> bool {
    exists|pth: Seq<Seq<bool>>|
        #[trigger] is_path_in(g, u, pth) && pth.len() >= 2 && pth[0] == pth[pth.len() - 1]
}

/// A good set lets us walk forward any number of transitions.
proof fn lemma_good_long_path(g: GraphSem, t: Set<Seq<bool>>, x0: Seq<bool>, n: nat)
    requires
        trim_good(g, t),
        t.contains(x0),
    ensures
        exists|pth: Seq<Seq<bool>>|
            #[trigger] is_path_in(g, t, pth) && pth[0] == x0 && pth.len() == n + 1,
    decreases n,
{
    if n == 0 {
        let pth = seq![x0];
        assert(is_path_in(g, t, pth));
    } else {
        lemma_good_long_path(g, t, x0, (n - 1) as nat);
        let pth = choose|pth: Seq<Seq<bool>>|
            #[trigger] is_path_in(g, t, pth) && pth[0] == x0 && pth.len() == n;
        let last = pth[pth.len() - 1];
        lemma_trim_good_member(g, t, last);
        let y = choose|y: Seq<bool>| #[trigger] t.contains(y) && step(g, last, y);
        let ext = pth.push(y);
        assert forall|k: int| 0 <= k < ext.len() implies t.contains(#[trigger] ext[k]) by {
            if k < pth.len() {
                assert(ext[k] == pth[k]);
            }
        }
        assert forall|k: int| 0 <= k < ext.len() - 1 implies #[trigger] step(
            g,
            ext[k],
            ext[k + 1],
        ) by {
            if k < pth.len() - 1 {
                assert(ext[k] == pth[k] && ext[k + 1] == pth[k + 1]);
            } else {
                assert(ext[k] == last && ext[k + 1] == y);
            }
        }
        assert(is_path_in(g, t, ext) && ext[0] == x0 && ext.len() == n + 1);
    }
}

/// Trimming an acyclic subspace always yields the empty set: without a
/// cycle, no (state, color) pair can keep both an in-set predecessor and
/// an in-set successor.
pub proof fn lemma_trim_acyclic_empty(g: GraphSem, s: Set<Seq<bool>>)
    requires
        s.finite(),
        !has_cycle(g, s),
    ensures
        trim_sem(g, s) == Set::<Seq<bool>>::empty(),
{
    let t = trim_sem(g, s);
    lemma_trim_sem_subset(g, s);
    lemma_trim_sem_good(g, s);
    vstd::set_lib::lemma_len_subset(t, s);
    assert forall|x0: Seq<bool>| !(#[trigger] t.contains(x0)) by {
        if t.contains(x0) {
            lemma_good_long_path(g, t, x0, t.len());
            let pth = choose|pth: Seq<Seq<bool>>|
                #[trigger] is_path_in(g, t, pth) && pth[0] == x0 && pth.len() == t.len() + 1;
            assert forall|a: Seq<bool>| #[trigger] pth.to_set().contains(a) implies t.contains(
                a,
            ) by {
                let k = choose|k: int| 0 <= k < pth.len() && pth[k] == a;
                assert(t.contains(pth[k]));
            }
            vstd::set_lib::lemma_len_subset(pth.to_set(), t);
            if pth.no_duplicates() {
                pth.unique_seq_to_set();
            }
            assert(!pth.no_duplicates());
            let (i, j) = choose|i: int, j: int|
                0 <= i < pth.len() && 0 <= j < pth.len() && i != j && pth[i] == pth[j];
            let a = if i < j {
                i
            } else {
                j
            };
            let b = if i < j {
                j
            } else {
                i
            };
            let cyc = pth.subrange(a, b + 1);
            assert forall|k: int| 0 <= k < cyc.len() implies s.contains(#[trigger] cyc[k]) by {
                assert(cyc[k] == pth[a + k]);
                assert(t.contains(pth[a + k]));
            }
            assert forall|k: int| 0 <= k < cyc.len() - 1 implies #[trigger] step(
                g,
                cyc[k],
                cyc[k + 1],
            ) by {
                assert(cyc[k] == pth[a + k] && cyc[k + 1] == pth[a + k + 1]);
                assert(step(g, pth[a + k], pth[a + k + 1]));
            }
            assert(is_path_in(g, s, cyc));
            assert(cyc.len() >= 2 && cyc[0] == cyc[cyc.len() - 1]);
            assert(has_cycle(g, s));
        }
    }
    assert(t =~= Set::<Seq<bool>>::empty());
}


/// A path inside a smaller set is a path inside a larger one.
pub proof fn lemma_reaches_mono(
    g: GraphSem,
    u1: Set<Seq<bool>>,
    u2: Set<Seq<bool>>,
    x: Seq<bool>,
    y: Seq<bool>,
)
    requires
        reaches_within(g, u1, x, y),
        u1.subset_of(u2),
    ensures
        reaches_within(g, u2, x, y),
{
    let pth = choose|pth: Seq<Seq<bool>>|
        #[trigger] is_path_in(g, u1, pth) && pth[0] == x && pth[pth.len() - 1] == y;
    assert forall|i: int| 0 <= i < pth.len() implies u2.contains(#[trigger] pth[i]) by {
        assert(u1.contains(pth[i]));
    }
    assert(is_path_in(g, u2, pth));
}

/// Everything along a path is reachable from anything that reaches the
/// path's start.
pub proof fn lemma_reaches_along(
    g: GraphSem,
    u: Set<Seq<bool>>,
    x: Seq<bool>,
    pth: Seq<Seq<bool>>,
    i: int,
)
    requires
        is_path_in(g, u, pth),
        reaches_within(g, u, x, pth[0]),
        0 <= i < pth.len(),
    ensures
        reaches_within(g, u, x, pth[i]),
    decreases i,
{
    if i > 0 {
        lemma_reaches_along(g, u, x, pth, i - 1);
        assert(step(g, pth[i - 1], pth[i]));
        assert(u.contains(pth[i]));
        lemma_reaches_extend(g, u, x, pth[i - 1], pth[i]);
    }
}

/// Reachability within one set is transitive.
pub proof fn lemma_reaches_trans(
    g: GraphSem,
    u: Set<Seq<bool>>,
    x: Seq<bool>,
    y: Seq<bool>,
    z: Seq<bool>,
)
    requires
        reaches_within(g, u, x, y),
        reaches_within(g, u, y, z),
    ensures
        reaches_within(g, u, x, z),
{
    let pth = choose|pth: Seq<Seq<bool>>|
        #[trigger] is_path_in(g, u, pth) && pth[0] == y && pth[pth.len() - 1] == z;
    lemma_reaches_along(g, u, x, pth, pth.len() - 1);
}

/// Transitions never change the color, so neither do paths.
pub proof fn lemma_reaches_color(g: GraphSem, u: Set<Seq<bool>>, x: Seq<bool>, y: Seq<bool>)
    requires
        g.wf(),
        vals_ok(u, g.n()),
        reaches_within(g, u, x, y),
    ensures
        color_eq(x, y, g.p),
        x.len() == g.n(),
        y.len() == g.n(),
{
    let pth = choose|pth: Seq<Seq<bool>>|
        #[trigger] is_path_in(g, u, pth) && pth[0] == x && pth[pth.len() - 1] == y;
    lemma_path_color(g, u, pth, pth.len() - 1);
}

/// Every element of a path carries the color of the path's start.
proof fn lemma_path_color(g: GraphSem, u: Set<Seq<bool>>, pth: Seq<Seq<bool>>, i: int)
    requires
        g.wf(),
        vals_ok(u, g.n()),
        is_path_in(g, u, pth),
        0 <= i < pth.len(),
    ensures
        color_eq(pth[0], pth[i], g.p),
        pth[0].len() == g.n(),
        pth[i].len() == g.n(),
    decreases i,
{
    assert(u.contains(pth[0]));
    assert(u.contains(pth[i]));
    if i == 0 {
        assert(color_eq(pth[0], pth[0], g.p));
    } else {
        lemma_path_color(g, u, pth, i - 1);
        assert(step(g, pth[i - 1], pth[i]));
        lemma_step_color(g, pth[i - 1], pth[i]);
    }
}


/// A transition changes its variable's bit, so it never stays in place.
pub proof fn lemma_step_distinct(g: GraphSem, x: Seq<bool>, y: Seq<bool>)
    requires
        g.wf(),
        step(g, x, y),
    ensures
        x != y,
{
    let i = choose|i: int| step_via(g, i, x, y);
    assert(g.enabled[i].contains(x));
    assert(x.len() == g.n());
    assert(y[g.sv(i)] == !x[g.sv(i)]);
}

/// The set of states on a cycle is good: every member keeps an in-set
/// predecessor and successor by walking the cycle.
proof fn lemma_cycle_set_good(g: GraphSem, u: Set<Seq<bool>>, pth: Seq<Seq<bool>>)
    requires
        is_path_in(g, u, pth),
        pth.len() >= 2,
        pth[0] == pth[pth.len() - 1],
    ensures
        trim_good(g, pth.to_set()),
        pth.to_set().subset_of(u),
        pth.to_set().contains(pth[0]),
{
    let t = pth.to_set();
    assert(pth.contains(pth[0]));
    assert forall|x: Seq<bool>| t.contains(x) implies u.contains(x) by {
        let k = choose|k: int| 0 <= k < pth.len() && pth[k] == x;
        assert(u.contains(pth[k]));
    }
    assert forall|x: Seq<bool>| #[trigger] live(t, x) implies exists|w: Seq<bool>|
        #[trigger] t.contains(w) && step(g, w, x) by {
        let k = choose|k: int| 0 <= k < pth.len() && pth[k] == x;
        if k > 0 {
            assert(step(g, pth[k - 1], pth[k]));
            assert(pth.contains(pth[k - 1]));
            assert(t.contains(pth[k - 1]) && step(g, pth[k - 1], x));
        } else {
            assert(step(g, pth[pth.len() - 2], pth[pth.len() - 1]));
            assert(pth.contains(pth[pth.len() - 2]));
            assert(t.contains(pth[pth.len() - 2]) && step(g, pth[pth.len() - 2], x));
        }
    }
    assert forall|x: Seq<bool>| #[trigger] live(t, x) implies exists|y: Seq<bool>|
        #[trigger] t.contains(y) && step(g, x, y) by {
        let k = choose|k: int| 0 <= k < pth.len() && pth[k] == x;
        if k < pth.len() - 1 {
            assert(step(g, pth[k], pth[k + 1]));
            assert(pth.contains(pth[k + 1]));
            assert(t.contains(pth[k + 1]) && step(g, x, pth[k + 1]));
        } else {
            assert(step(g, pth[0], pth[1]));
            assert(pth.contains(pth[1]));
            assert(t.contains(pth[1]) && step(g, x, pth[1]));
        }
    }
}

/// A cycle survives trimming: its states are a good subset.
pub proof fn lemma_cycle_in_trim(g: GraphSem, s: Set<Seq<bool>>)
    requires
        has_cycle(g, s),
    ensures
        has_cycle(g, trim_sem(g, s)),
        !trim_sem(g, s).is_empty(),
{
    let pth = choose|pth: Seq<Seq<bool>>|
        #[trigger] is_path_in(g, s, pth) && pth.len() >= 2 && pth[0] == pth[pth.len() - 1];
    lemma_cycle_set_good(g, s, pth);
    lemma_trim_sem_largest(g, s, pth.to_set());
    assert forall|i: int| 0 <= i < pth.len() implies trim_sem(g, s).contains(
        #[trigger] pth[i],
    ) by {
        assert(pth.contains(pth[i]));
        assert(pth.to_set().contains(pth[i]));
    }
    assert(is_path_in(g, trim_sem(g, s), pth));
    assert(trim_sem(g, s).contains(pth[0]));
    if trim_sem(g, s).is_empty() {
        assert(!trim_sem(g, s).contains(pth[0]));
    }
}

/// A set with a cycle is not empty.
pub proof fn lemma_has_cycle_nonempty(g: GraphSem, s: Set<Seq<bool>>)
    requires
        has_cycle(g, s),
    ensures
        !s.is_empty(),
{
    let pth = choose|pth: Seq<Seq<bool>>|
        #[trigger] is_path_in(g, s, pth) && pth.len() >= 2 && pth[0] == pth[pth.len() - 1];
    assert(s.contains(pth[0]));
    if s.is_empty() {
        assert(!s.contains(pth[0]));
    }
}

/// Membership in `x_set` propagates forward from one index to a later one
/// when `x_set` is closed under the path's steps.
proof fn lemma_path_propagate_fwd(
    g: GraphSem,
    u: Set<Seq<bool>>,
    pth: Seq<Seq<bool>>,
    x_set: Set<Seq<bool>>,
    j: int,
    i: int,
)
    requires
        is_path_in(g, u, pth),
        forall|k: int|
            0 <= k < pth.len() - 1 && x_set.contains(#[trigger] pth[k]) ==> x_set.contains(
                pth[k + 1],
            ),
        0 <= j <= i < pth.len(),
        x_set.contains(pth[j]),
    ensures
        x_set.contains(pth[i]),
    decreases i - j,
{
    if i > j {
        lemma_path_propagate_fwd(g, u, pth, x_set, j, i - 1);
    }
}

/// Membership in `x_set` propagates backward from one index to an earlier
/// one when `x_set` is closed under the path's steps reversed.
proof fn lemma_path_propagate_bwd(
    g: GraphSem,
    u: Set<Seq<bool>>,
    pth: Seq<Seq<bool>>,
    x_set: Set<Seq<bool>>,
    j: int,
    i: int,
)
    requires
        is_path_in(g, u, pth),
        forall|k: int|
            0 <= k < pth.len() - 1 && x_set.contains(#[trigger] pth[k + 1]) ==> x_set.contains(
                pth[k],
            ),
        0 <= i <= j < pth.len(),
        x_set.contains(pth[j]),
    ensures
        x_set.contains(pth[i]),
    decreases j - i,
{
    if i < j {
        lemma_path_propagate_bwd(g, u, pth, x_set, j, i + 1);
        assert(x_set.contains(pth[i + 1]));
    }
}

/// On a cycle, membership in a step-closed set spreads to every state.
pub proof fn lemma_cycle_closed_fwd(
    g: GraphSem,
    u: Set<Seq<bool>>,
    pth: Seq<Seq<bool>>,
    x_set: Set<Seq<bool>>,
    j: int,
)
    requires
        is_path_in(g, u, pth),
        pth.len() >= 2,
        pth[0] == pth[pth.len() - 1],
        forall|k: int|
            0 <= k < pth.len() - 1 && x_set.contains(#[trigger] pth[k]) ==> x_set.contains(
                pth[k + 1],
            ),
        0 <= j < pth.len(),
        x_set.contains(pth[j]),
    ensures
        forall|i: int| 0 <= i < pth.len() ==> x_set.contains(#[trigger] pth[i]),
{
    lemma_path_propagate_fwd(g, u, pth, x_set, j, pth.len() - 1);
    assert(x_set.contains(pth[0]));
    assert forall|i: int| 0 <= i < pth.len() implies x_set.contains(#[trigger] pth[i]) by {
        lemma_path_propagate_fwd(g, u, pth, x_set, 0, i);
    }
}

/// On a cycle, membership in a predecessor-closed set spreads to every
/// state.
pub proof fn lemma_cycle_closed_bwd(
    g: GraphSem,
    u: Set<Seq<bool>>,
    pth: Seq<Seq<bool>>,
    x_set: Set<Seq<bool>>,
    j: int,
)
    requires
        is_path_in(g, u, pth),
        pth.len() >= 2,
        pth[0] == pth[pth.len() - 1],
        forall|k: int|
            0 <= k < pth.len() - 1 && x_set.contains(#[trigger] pth[k + 1]) ==> x_set.contains(
                pth[k],
            ),
        0 <= j < pth.len(),
        x_set.contains(pth[j]),
    ensures
        forall|i: int| 0 <= i < pth.len() ==> x_set.contains(#[trigger] pth[i]),
{
    lemma_path_propagate_bwd(g, u, pth, x_set, j, 0);
    assert(x_set.contains(pth[pth.len() - 1]));
    assert forall|i: int| 0 <= i < pth.len() implies x_set.contains(#[trigger] pth[i]) by {
        lemma_path_propagate_bwd(g, u, pth, x_set, pth.len() - 1, i);
    }
}

/// The forward reachable set is closed under transitions inside `u`.
pub proof fn lemma_fwd_reach_step(
    g: GraphSem,
    u: Set<Seq<bool>>,
    pivots: Set<Seq<bool>>,
    x: Seq<bool>,
    y: Seq<bool>,
)
    requires
        fwd_reach(g, u, pivots).contains(x),
        step(g, x, y),
        u.contains(y),
    ensures
        fwd_reach(g, u, pivots).contains(y),
{
    reveal(fwd_reach);
    let p = choose|p: Seq<bool>| #[trigger] pivots.contains(p) && reaches_within(g, u, p, x);
    lemma_reaches_extend(g, u, p, x, y);
    assert(pivots.contains(p) && reaches_within(g, u, p, y));
}

/// The backward reachable set is closed under reversed transitions inside
/// `u`.
pub proof fn lemma_bwd_reach_step(
    g: GraphSem,
    u: Set<Seq<bool>>,
    pivots: Set<Seq<bool>>,
    x: Seq<bool>,
    y: Seq<bool>,
)
    requires
        bwd_reach(g, u, pivots).contains(y),
        step(g, x, y),
        u.contains(x),
    ensures
        bwd_reach(g, u, pivots).contains(x),
{
    reveal(bwd_reach);
    let p = choose|p: Seq<bool>| #[trigger] pivots.contains(p) && reaches_within(g, u, y, p);
    lemma_reaches_prepend(g, u, x, y, p);
    assert(pivots.contains(p) && reaches_within(g, u, x, p));
}


/// A transition stays within any state-closed set: source and target carry
/// the same color.
pub proof fn lemma_step_same_color_set(
    g: GraphSem,
    d: Set<Seq<bool>>,
    x: Seq<bool>,
    y: Seq<bool>,
)
    requires
        g.wf(),
        state_closed(d, g.p, g.n()),
        step(g, x, y),
    ensures
        d.contains(x) <==> d.contains(y),
{
    lemma_step_color(g, x, y);
    if d.contains(x) {
        assert(d.contains(y));
    }
    if d.contains(y) {
        assert(color_eq(y, x, g.p));
        assert(d.contains(x));
    }
}

} // verus!
