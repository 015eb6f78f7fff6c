//! Spec-level vocabulary for valuations of the symbolic encoding.
//!
//! A valuation is a `Seq<bool>` over the whole variable order: first the
//! `p` parameter variables (the "color" part), then the `s` state variables
//! (the "vertex" part).

use vstd::prelude::*;

verus! {

use crate::bdd_ops::agrees_outside;

/// `v` and `w` carry the same color: they agree on the parameter prefix
/// `[0, p)`.
pub open spec fn color_eq(v: Seq<bool>, w: Seq<bool>, p: nat) -> bool {
    &&& v.len() == w.len()
    &&& p <= v.len()
    &&& v.subrange(0, p as int) == w.subrange(0, p as int)
}

/// `v` and `w` carry the same vertex: they agree on the state suffix
/// `[p, len)`.
pub open spec fn state_eq(v: Seq<bool>, w: Seq<bool>, p: nat) -> bool {
    &&& v.len() == w.len()
    &&& p <= v.len()
    &&& v.subrange(p as int, v.len() as int) == w.subrange(p as int, w.len() as int)
}

/// Members of the parameter prefix are equal under `color_eq`.
pub proof fn lemma_color_eq_index(v: Seq<bool>, w: Seq<bool>, p: nat, i: int)
    requires
        color_eq(v, w, p),
        0 <= i < p,
    ensures
        v[i] == w[i],
{
    assert(v.subrange(0, p as int)[i] == v[i]);
    assert(w.subrange(0, p as int)[i] == w[i]);
}

/// Members of the state suffix are equal under `state_eq`.
pub proof fn lemma_state_eq_index(v: Seq<bool>, w: Seq<bool>, p: nat, i: int)
    requires
        state_eq(v, w, p),
        p <= i < v.len(),
    ensures
        v[i] == w[i],
{
    assert(v.subrange(p as int, v.len() as int)[i - p] == v[i]);
    assert(w.subrange(p as int, w.len() as int)[i - p] == w[i]);
}

/// `s` does not constrain the state variables: any valuation of the right
/// length carrying the color of a member is itself a member.
pub open spec fn state_closed(s: Set<Seq<bool>>, p: nat, n: nat) -> bool {
    forall|v: Seq<bool>, w: Seq<bool>|
        #[trigger] s.contains(v) && w.len() == n && #[trigger] color_eq(v, w, p) ==> s.contains(w)
}

/// `s` does not constrain the parameter variables: any valuation of the
/// right length carrying the vertex of a member is itself a member.
pub open spec fn param_closed(s: Set<Seq<bool>>, p: nat, n: nat) -> bool {
    forall|v: Seq<bool>, w: Seq<bool>|
        #[trigger] s.contains(v) && w.len() == n && #[trigger] state_eq(v, w, p) ==> s.contains(w)
}

/// The projection of `s` to its colors: every state constraint dropped.
#[verifier::opaque]
pub open spec fn color_projection(s: Set<Seq<bool>>, p: nat, n: nat) -> Set<Seq<bool>> {
    Set::new(
        |v: Seq<bool>|
            v.len() == n && exists|w: Seq<bool>| #[trigger] s.contains(w) && color_eq(v, w, p),
    )
}

/// The projection of `s` to its vertices: every parameter constraint dropped.
#[verifier::opaque]
pub open spec fn state_projection(s: Set<Seq<bool>>, p: nat, n: nat) -> Set<Seq<bool>> {
    Set::new(
        |v: Seq<bool>|
            v.len() == n && exists|w: Seq<bool>| #[trigger] s.contains(w) && state_eq(v, w, p),
    )
}

/// A full-length member of a set appears in the set's color projection.
pub proof fn lemma_color_projection_contains_self(
    s: Set<Seq<bool>>,
    p: nat,
    n: nat,
    v: Seq<bool>,
)
    requires
        s.contains(v),
        v.len() == n,
        p <= n,
    ensures
        color_projection(s, p, n).contains(v),
{
    reveal(color_projection);
    assert(color_eq(v, v, p));
}

/// The color projection is empty exactly when the set is empty.
pub proof fn lemma_color_projection_empty_iff(s: Set<Seq<bool>>, p: nat, n: nat)
    requires
        forall|v: Seq<bool>| #[trigger] s.contains(v) ==> v.len() == n,
        p <= n,
    ensures
        color_projection(s, p, n).is_empty() <==> s.is_empty(),
{
    reveal(color_projection);
    if s.is_empty() {
        assert forall|v: Seq<bool>| !(#[trigger] color_projection(s, p, n).contains(v)) by {
            if color_projection(s, p, n).contains(v) {
                let w = choose|w: Seq<bool>| #[trigger] s.contains(w) && color_eq(v, w, p);
                assert(!s.contains(w));
            }
        }
        assert(color_projection(s, p, n) =~= Set::<Seq<bool>>::empty());
    }
    if color_projection(s, p, n).is_empty() {
        assert forall|v: Seq<bool>| !(#[trigger] s.contains(v)) by {
            if s.contains(v) {
                lemma_color_projection_contains_self(s, p, n, v);
            }
        }
        assert(s =~= Set::<Seq<bool>>::empty());
    }
}

/// A state-closed set that holds a set holds its color projection too.
pub proof fn lemma_color_projection_bound(
    s: Set<Seq<bool>>,
    d: Set<Seq<bool>>,
    p: nat,
    n: nat,
)
    requires
        state_closed(d, p, n),
        forall|v: Seq<bool>| #[trigger] s.contains(v) ==> d.contains(v),
    ensures
        color_projection(s, p, n).subset_of(d),
{
    reveal(color_projection);
    assert forall|x: Seq<bool>| color_projection(s, p, n).contains(x) implies d.contains(x) by {
        let w = choose|w: Seq<bool>| #[trigger] s.contains(w) && color_eq(x, w, p);
        assert(d.contains(w));
        assert(color_eq(w, x, p));
    }
}

/// `vars` holds exactly the variable indices of `[from, to)`.
pub open spec fn is_index_range(vars: Seq<u16>, from: u16, to: u16) -> bool {
    &&& vars.len() == to - from
    &&& forall|i: int| 0 <= i < vars.len() ==> #[trigger] vars[i] == from + i
}

/// An index-range sequence contains exactly the integers of its range.
pub proof fn lemma_index_range_contains(vars: Seq<u16>, from: u16, to: u16)
    requires
        is_index_range(vars, from, to),
    ensures
        forall|x: u16| #[trigger] vars.contains(x) <==> from <= x < to,
{
    assert forall|x: u16| #[trigger] vars.contains(x) implies from <= x < to by {
        let i = choose|i: int| 0 <= i < vars.len() && vars[i] == x;
        assert(vars[i] == from + i);
    }
    assert forall|x: u16| from <= x < to implies #[trigger] vars.contains(x) by {
        assert(vars[x - from] == x);
    }
}

/// An index-range sequence holds no index twice.
pub proof fn lemma_index_range_distinct(vars: Seq<u16>, from: u16, to: u16)
    requires
        is_index_range(vars, from, to),
    ensures
        forall|i: int, j: int| 0 <= i < j < vars.len() ==> vars[i] != vars[j],
{
    assert forall|i: int, j: int| 0 <= i < j < vars.len() implies vars[i] != vars[j] by {
        assert(vars[i] == from + i && vars[j] == from + j);
    }
}

/// Over valuations of length `p + s`, agreement outside the state-variable
/// block `[p, p + s)` is exactly color agreement.
pub proof fn lemma_agrees_outside_states(
    v: Seq<bool>,
    w: Seq<bool>,
    p: u16,
    s: u16,
    vars: Seq<u16>,
)
    requires
        is_index_range(vars, p, (p + s) as u16),
        p + s <= u16::MAX,
        v.len() == p + s,
    ensures
        agrees_outside(v, w, vars) <==> color_eq(v, w, p as nat),
{
    lemma_index_range_contains(vars, p, (p + s) as u16);
    if agrees_outside(v, w, vars) {
        assert forall|i: int| 0 <= i < p implies v.subrange(0, p as int)[i] == w.subrange(
            0,
            p as int,
        )[i] by {
            assert(!vars.contains(i as u16));
            assert(v[i] == w[i]);
        }
        assert(v.subrange(0, p as int) =~= w.subrange(0, p as int));
    }
    if color_eq(v, w, p as nat) {
        assert forall|i: int| 0 <= i < v.len() && !vars.contains(i as u16) implies #[trigger] v[i]
            == w[i] by {
            assert(i < p + s);
            if i >= p {
                assert(vars.contains(i as u16));
            } else {
                lemma_color_eq_index(v, w, p as nat, i);
            }
        }
    }
}

/// Over valuations of length `p + s`, agreement outside the parameter block
/// `[0, p)` is exactly state agreement.
pub proof fn lemma_agrees_outside_params(
    v: Seq<bool>,
    w: Seq<bool>,
    p: u16,
    s: u16,
    vars: Seq<u16>,
)
    requires
        is_index_range(vars, 0, p),
        p + s <= u16::MAX,
        v.len() == p + s,
    ensures
        agrees_outside(v, w, vars) <==> state_eq(v, w, p as nat),
{
    lemma_index_range_contains(vars, 0, p);
    if agrees_outside(v, w, vars) {
        assert forall|i: int| 0 <= i < v.len() - p implies v.subrange(p as int, v.len() as int)[i]
            == w.subrange(p as int, w.len() as int)[i] by {
            assert(!vars.contains((i + p) as u16));
            assert(v[i + p] == w[i + p]);
        }
        assert(v.subrange(p as int, v.len() as int) =~= w.subrange(p as int, w.len() as int));
    }
    if state_eq(v, w, p as nat) {
        assert forall|i: int| 0 <= i < v.len() && !vars.contains(i as u16) implies #[trigger] v[i]
            == w[i] by {
            if i < p {
                assert(vars.contains(i as u16));
            } else {
                lemma_state_eq_index(v, w, p as nat, i);
            }
        }
    }
}

/// The contiguous vector of variable indices `[from, to)`.
pub fn range_vec(from: u16, to: u16) -> (r: Vec<u16>)
    requires
        from <= to,
    ensures
        is_index_range(r@, from, to),
{
    let mut r: Vec<u16> = Vec::new();
    let mut i: u16 = from;
    while i < to
        invariant
            from <= i <= to,
            r@.len() == i - from,
            forall|j: int| 0 <= j < r@.len() ==> #[trigger] r@[j] == from + j,
        decreases to - i,
    {
        r.push(i);
        i = i + 1;
    }
    r
}

} // verus!
