//! Trusted boundary around the external BDD library.
//!
//! A `Bdd` is an opaque, canonical representation of a Boolean function over
//! a fixed number of ordered variables.  We model it by two uninterpreted
//! names: `bdd_sat`, the set of satisfying valuations (each valuation is a
//! `Seq<bool>` indexed by variable), and `bdd_nvars`, the number of variables
//! the diagram was created with.  Every operation the library relies on is
//! wrapped here, with a contract stating the documented set semantics.

use vstd::prelude::*;

verus! {

use biodivine_lib_bdd::Bdd;

#[verifier::external_type_specification]
#[verifier::external_body]
pub struct ExBdd(Bdd);

/// The set of satisfying valuations of a BDD, one `Seq<bool>` per valuation,
/// indexed by BDD variable.
pub uninterp spec fn bdd_sat(b: Bdd) -> Set<Seq<bool>>;

/// The number of variables of the variable set the BDD was created over.
pub uninterp spec fn bdd_nvars(b: Bdd) -> nat;

/// A well-formed satisfying set over `n` variables: finitely many valuations,
/// each of length `n`.
pub open spec fn vals_ok(s: Set<Seq<bool>>, n: nat) -> bool {
    &&& s.finite()
    &&& forall|v: Seq<bool>| #[trigger] s.contains(v) ==> v.len() == n
}

/// The valuation `v` with the value of variable `i` negated.
pub open spec fn flip_at(v: Seq<bool>, i: int) -> Seq<bool> {
    v.update(i, !v[i])
}

/// `v` and `w` assign the same values to every variable outside `vars`.
pub open spec fn agrees_outside(v: Seq<bool>, w: Seq<bool>, vars: Seq<u16>) -> bool {
    &&& v.len() == w.len()
    &&& forall|i: int| 0 <= i < v.len() && !vars.contains(i as u16) ==> #[trigger] v[i] == w[i]
}

/// `s` holds every valuation of `n` variables.
pub open spec fn sat_is_all(s: Set<Seq<bool>>, n: nat) -> bool {
    forall|v: Seq<bool>| #[trigger] s.contains(v) <==> v.len() == n
}

/// `s` holds exactly the valuations of `n` variables assigning `value` to
/// variable `var`.
pub open spec fn sat_is_literal(s: Set<Seq<bool>>, n: nat, var: u16, value: bool) -> bool {
    forall|v: Seq<bool>| #[trigger] s.contains(v) <==> v.len() == n && v[var as int] == value
}

/// `s` is `{ v | flip_at(v, var) ∈ a ∩ b }`, over `n` variables.
pub open spec fn sat_is_and_flip_out(
    s: Set<Seq<bool>>,
    a: Set<Seq<bool>>,
    b: Set<Seq<bool>>,
    n: nat,
    var: u16,
) -> bool {
    forall|v: Seq<bool>| #[trigger] s.contains(v) <==> v.len() == n && a.contains(
        flip_at(v, var as int),
    ) && b.contains(flip_at(v, var as int))
}

/// `s` is `{ v ∈ a | flip_at(v, var) ∈ b }`.
pub open spec fn sat_is_and_flip_right(
    s: Set<Seq<bool>>,
    a: Set<Seq<bool>>,
    b: Set<Seq<bool>>,
    var: u16,
) -> bool {
    forall|v: Seq<bool>| #[trigger] s.contains(v) <==> a.contains(v) && b.contains(
        flip_at(v, var as int),
    )
}

/// `s` is `{ v ∈ a | flip_at(v, var) ∉ b }`.
pub open spec fn sat_is_and_not_flip_right(
    s: Set<Seq<bool>>,
    a: Set<Seq<bool>>,
    b: Set<Seq<bool>>,
    var: u16,
) -> bool {
    forall|v: Seq<bool>| #[trigger] s.contains(v) <==> a.contains(v) && !b.contains(
        flip_at(v, var as int),
    )
}

/// `s` is `{ v ∈ b \ c | flip_at(v, var) ∈ a }`.
pub open spec fn sat_is_flip_left_and_and_not(
    s: Set<Seq<bool>>,
    a: Set<Seq<bool>>,
    b: Set<Seq<bool>>,
    c: Set<Seq<bool>>,
    var: u16,
) -> bool {
    forall|v: Seq<bool>| #[trigger] s.contains(v) <==> a.contains(flip_at(v, var as int))
        && b.contains(v) && !c.contains(v)
}

/// `s` is the existential projection of `orig` over `vars`: a valuation of
/// `n` variables is in `s` exactly when some valuation of `orig` agrees with
/// it outside `vars`.
pub open spec fn sat_is_projection(
    s: Set<Seq<bool>>,
    orig: Set<Seq<bool>>,
    n: nat,
    vars: Seq<u16>,
) -> bool {
    forall|v: Seq<bool>| #[trigger] s.contains(v) <==> v.len() == n && exists|w: Seq<bool>|
        #[trigger] orig.contains(w) && agrees_outside(v, w, vars)
}

/// Every valuation of `orig` has a valuation of `s` agreeing with it outside
/// `vars`.
pub open spec fn sat_covers_outside(s: Set<Seq<bool>>, orig: Set<Seq<bool>>, vars: Seq<u16>) -> bool {
    forall|v: Seq<bool>| #[trigger] orig.contains(v) ==> exists|w: Seq<bool>|
        #[trigger] s.contains(w) && agrees_outside(v, w, vars)
}

/// No two distinct valuations of `s` agree outside `vars`.
pub open spec fn sat_unique_outside(s: Set<Seq<bool>>, vars: Seq<u16>) -> bool {
    forall|v: Seq<bool>, w: Seq<bool>|
        #[trigger] s.contains(v) && #[trigger] s.contains(w) && agrees_outside(v, w, vars) ==> v
            == w
}

/// `s` holds exactly one valuation.
pub open spec fn sat_is_singleton(s: Set<Seq<bool>>) -> bool {
    &&& exists|v: Seq<bool>| #[trigger] s.contains(v)
    &&& forall|v: Seq<bool>, w: Seq<bool>|
        #[trigger] s.contains(v) && #[trigger] s.contains(w) ==> v == w
}

/// Relies on `BddVariableSet::mk_false`: the constant-false function over
/// `n` variables has no satisfying valuation.  `new_anonymous` panics for
/// a variable count of 65534 or more, which the precondition excludes.
#[verifier::external_body]
pub(crate) fn bdd_mk_false(n: u16) -> (r: Bdd)
    requires
        n < 0xFFFE,
    ensures
        bdd_nvars(r) == n,
        bdd_sat(r) == Set::<Seq<bool>>::empty(),
{
    biodivine_lib_bdd::BddVariableSet::new_anonymous(n).mk_false()
}

/// Relies on `BddVariableSet::mk_true`: the constant-true function over `n`
/// variables is satisfied by every valuation of the `n` variables.
/// `new_anonymous` panics for a variable count of 65534 or more, which the
/// precondition excludes.
#[verifier::external_body]
pub(crate) fn bdd_mk_true(n: u16) -> (r: Bdd)
    requires
        n < 0xFFFE,
    ensures
        bdd_nvars(r) == n,
        bdd_sat(r).finite(),
        sat_is_all(bdd_sat(r), n as nat),
{
    biodivine_lib_bdd::BddVariableSet::new_anonymous(n).mk_true()
}

/// Relies on `BddVariableSet::mk_literal`: the function `var <=> value` is
/// satisfied exactly by the valuations assigning `value` to `var`.
/// `new_anonymous` panics for a variable count of 65534 or more, which the
/// precondition excludes.
#[verifier::external_body]
pub(crate) fn bdd_mk_literal(n: u16, var: u16, value: bool) -> (r: Bdd)
    requires
        var < n,
        n < 0xFFFE,
    ensures
        bdd_nvars(r) == n,
        bdd_sat(r).finite(),
        sat_is_literal(bdd_sat(r), n as nat, var, value),
{
    let vs = biodivine_lib_bdd::BddVariableSet::new_anonymous(n);
    vs.mk_literal(biodivine_lib_bdd::BddVariable::from_index(var as usize), value)
}

/// Relies on the derived `Clone` of `Bdd`: the clone equals the original.
#[verifier::external_body]
pub(crate) fn bdd_clone(b: &Bdd) -> (r: Bdd)
    ensures
        r == *b,
{
    b.clone()
}

/// Relies on `Bdd::num_vars`: the variable count the diagram was created with.
#[verifier::external_body]
pub(crate) fn bdd_num_vars(b: &Bdd) -> (r: u16)
    ensures
        r == bdd_nvars(*b),
{
    b.num_vars()
}

/// Relies on `Bdd::size`: the number of graph nodes used by the diagram;
/// every diagram holds at least the terminal node.
#[verifier::external_body]
pub(crate) fn bdd_size(b: &Bdd) -> (r: usize)
    ensures
        r >= 1,
{
    b.size()
}

/// Relies on `Bdd::is_false`: a canonical diagram is structurally the
/// constant-false diagram exactly when it has no satisfying valuation.
#[verifier::external_body]
pub(crate) fn bdd_is_false(b: &Bdd) -> (r: bool)
    ensures
        r <==> bdd_sat(*b) =~= Set::<Seq<bool>>::empty(),
{
    b.is_false()
}

/// Relies on `Bdd::and`: conjunction intersects the satisfying sets.
/// Panics on a variable-count mismatch, which the precondition excludes.
#[verifier::external_body]
pub(crate) fn bdd_and(a: &Bdd, b: &Bdd) -> (r: Bdd)
    requires
        bdd_nvars(*a) == bdd_nvars(*b),
        vals_ok(bdd_sat(*a), bdd_nvars(*a)),
    ensures
        bdd_nvars(r) == bdd_nvars(*a),
        vals_ok(bdd_sat(r), bdd_nvars(*a)),
        bdd_sat(r) == bdd_sat(*a).intersect(bdd_sat(*b)),
{
    a.and(b)
}

/// Relies on `Bdd::or`: disjunction unites the satisfying sets.
/// Panics on a variable-count mismatch, which the precondition excludes.
#[verifier::external_body]
pub(crate) fn bdd_or(a: &Bdd, b: &Bdd) -> (r: Bdd)
    requires
        bdd_nvars(*a) == bdd_nvars(*b),
        vals_ok(bdd_sat(*a), bdd_nvars(*a)),
        vals_ok(bdd_sat(*b), bdd_nvars(*b)),
    ensures
        bdd_nvars(r) == bdd_nvars(*a),
        vals_ok(bdd_sat(r), bdd_nvars(*a)),
        bdd_sat(r) == bdd_sat(*a).union(bdd_sat(*b)),
{
    a.or(b)
}

/// Relies on `Bdd::and_not`: `a & !b` is the set difference of the
/// satisfying sets.  Panics on a variable-count mismatch, which the
/// precondition excludes.
#[verifier::external_body]
pub(crate) fn bdd_and_not(a: &Bdd, b: &Bdd) -> (r: Bdd)
    requires
        bdd_nvars(*a) == bdd_nvars(*b),
        vals_ok(bdd_sat(*a), bdd_nvars(*a)),
    ensures
        bdd_nvars(r) == bdd_nvars(*a),
        vals_ok(bdd_sat(r), bdd_nvars(*a)),
        bdd_sat(r) == bdd_sat(*a).difference(bdd_sat(*b)),
{
    a.and_not(b)
}

/// Relies on `Bdd::fused_binary_flip_op` with `op_function::and` and the
/// output flipped at `var`: flipping the output negates the value of `var`
/// in every satisfying valuation, so `v` satisfies the result exactly when
/// `flip_at(v, var)` satisfies both inputs.  Panics on a variable-count
/// mismatch or an out-of-range flip variable, which the preconditions
/// exclude.
#[verifier::external_body]
pub(crate) fn bdd_and_flip_output(a: &Bdd, b: &Bdd, var: u16) -> (r: Bdd)
    requires
        bdd_nvars(*a) == bdd_nvars(*b),
        var < bdd_nvars(*a),
        vals_ok(bdd_sat(*a), bdd_nvars(*a)),
        vals_ok(bdd_sat(*b), bdd_nvars(*b)),
    ensures
        bdd_nvars(r) == bdd_nvars(*a),
        vals_ok(bdd_sat(r), bdd_nvars(*a)),
        sat_is_and_flip_out(bdd_sat(r), bdd_sat(*a), bdd_sat(*b), bdd_nvars(*a), var),
{
    let x = biodivine_lib_bdd::BddVariable::from_index(var as usize);
    Bdd::fused_binary_flip_op((a, None), (b, None), Some(x), biodivine_lib_bdd::op_function::and)
}

/// Relies on `Bdd::fused_binary_flip_op` with `op_function::and` and the
/// right input flipped at `var`: the flipped input is satisfied by `v`
/// exactly when `b` is satisfied by `flip_at(v, var)`.  Panics on a
/// variable-count mismatch or an out-of-range flip variable, which the
/// preconditions exclude.
#[verifier::external_body]
pub(crate) fn bdd_and_flip_right(a: &Bdd, b: &Bdd, var: u16) -> (r: Bdd)
    requires
        bdd_nvars(*a) == bdd_nvars(*b),
        var < bdd_nvars(*a),
        vals_ok(bdd_sat(*a), bdd_nvars(*a)),
        vals_ok(bdd_sat(*b), bdd_nvars(*b)),
    ensures
        bdd_nvars(r) == bdd_nvars(*a),
        vals_ok(bdd_sat(r), bdd_nvars(*a)),
        sat_is_and_flip_right(bdd_sat(r), bdd_sat(*a), bdd_sat(*b), var),
{
    let x = biodivine_lib_bdd::BddVariable::from_index(var as usize);
    Bdd::fused_binary_flip_op((a, None), (b, Some(x)), None, biodivine_lib_bdd::op_function::and)
}

/// Relies on `Bdd::fused_binary_flip_op` with `op_function::and_not` and the
/// right input flipped at `var`.  Panics on a variable-count mismatch or an
/// out-of-range flip variable, which the preconditions exclude.
#[verifier::external_body]
pub(crate) fn bdd_and_not_flip_right(a: &Bdd, b: &Bdd, var: u16) -> (r: Bdd)
    requires
        bdd_nvars(*a) == bdd_nvars(*b),
        var < bdd_nvars(*a),
        vals_ok(bdd_sat(*a), bdd_nvars(*a)),
        vals_ok(bdd_sat(*b), bdd_nvars(*b)),
    ensures
        bdd_nvars(r) == bdd_nvars(*a),
        vals_ok(bdd_sat(r), bdd_nvars(*a)),
        sat_is_and_not_flip_right(bdd_sat(r), bdd_sat(*a), bdd_sat(*b), var),
{
    let x = biodivine_lib_bdd::BddVariable::from_index(var as usize);
    Bdd::fused_binary_flip_op(
        (a, None),
        (b, Some(x)),
        None,
        biodivine_lib_bdd::op_function::and_not,
    )
}

/// Relies on `Bdd::fused_ternary_flip_op` computing `a & b & !c` with the
/// first input flipped at `var`.  Panics on a variable-count mismatch or an
/// out-of-range flip variable, which the preconditions exclude.
#[verifier::external_body]
pub(crate) fn bdd_flip_left_and_and_not(a: &Bdd, b: &Bdd, c: &Bdd, var: u16) -> (r: Bdd)
    requires
        bdd_nvars(*a) == bdd_nvars(*b),
        bdd_nvars(*a) == bdd_nvars(*c),
        var < bdd_nvars(*a),
        vals_ok(bdd_sat(*a), bdd_nvars(*a)),
        vals_ok(bdd_sat(*b), bdd_nvars(*b)),
    ensures
        bdd_nvars(r) == bdd_nvars(*a),
        vals_ok(bdd_sat(r), bdd_nvars(*a)),
        sat_is_flip_left_and_and_not(bdd_sat(r), bdd_sat(*a), bdd_sat(*b), bdd_sat(*c), var),
{
    let x = biodivine_lib_bdd::BddVariable::from_index(var as usize);
    Bdd::fused_ternary_flip_op((a, Some(x)), (b, None), (c, None), None, |a, b, c| match (
        a,
        b,
        c,
    ) {
        (Some(false), _, _) => Some(false),
        (_, Some(false), _) => Some(false),
        (_, _, Some(true)) => Some(false),
        (Some(true), Some(true), Some(false)) => Some(true),
        _ => None,
    })
}

/// Relies on `Bdd::exists`: existential projection of the given variables.
/// A valuation satisfies the result exactly when some satisfying valuation
/// of the input agrees with it on all the remaining variables.
#[verifier::external_body]
pub(crate) fn bdd_exists(b: &Bdd, vars: &Vec<u16>) -> (r: Bdd)
    requires
        forall|i: int| 0 <= i < vars@.len() ==> #[trigger] vars@[i] < bdd_nvars(*b),
        vals_ok(bdd_sat(*b), bdd_nvars(*b)),
    ensures
        bdd_nvars(r) == bdd_nvars(*b),
        vals_ok(bdd_sat(r), bdd_nvars(*b)),
        sat_is_projection(bdd_sat(r), bdd_sat(*b), bdd_nvars(*b), vars@),
{
    let vs: Vec<biodivine_lib_bdd::BddVariable> = vars
        .iter()
        .map(|i| biodivine_lib_bdd::BddVariable::from_index(*i as usize))
        .collect();
    b.exists(&vs)
}

/// Relies on `Bdd::pick`: for every satisfying valuation of the input,
/// disregarding the given variables, the result keeps exactly one witness
/// valuation, which also satisfies the input.  The picked variables must
/// be distinct: `pick` projects and re-selects one variable after another,
/// and a repeated variable would make the re-selection miss valuations.
#[verifier::external_body]
pub(crate) fn bdd_pick(b: &Bdd, vars: &Vec<u16>) -> (r: Bdd)
    requires
        forall|i: int| 0 <= i < vars@.len() ==> #[trigger] vars@[i] < bdd_nvars(*b),
        forall|i: int, j: int| 0 <= i < j < vars@.len() ==> vars@[i] != vars@[j],
        vals_ok(bdd_sat(*b), bdd_nvars(*b)),
    ensures
        bdd_nvars(r) == bdd_nvars(*b),
        vals_ok(bdd_sat(r), bdd_nvars(*b)),
        bdd_sat(r).subset_of(bdd_sat(*b)),
        sat_covers_outside(bdd_sat(r), bdd_sat(*b), vars@),
        sat_unique_outside(bdd_sat(r), vars@),
{
    let vs: Vec<biodivine_lib_bdd::BddVariable> = vars
        .iter()
        .map(|i| biodivine_lib_bdd::BddVariable::from_index(*i as usize))
        .collect();
    b.pick(&vs)
}

/// Relies on `Bdd::sat_witness` and the `BddValuation` to `Bdd` conversion:
/// for a satisfiable diagram, the witness is one of its satisfying
/// valuations, and its diagram is satisfied by that valuation alone.
#[verifier::external_body]
pub(crate) fn bdd_witness(b: &Bdd) -> (r: Bdd)
    requires
        !(bdd_sat(*b) =~= Set::<Seq<bool>>::empty()),
        vals_ok(bdd_sat(*b), bdd_nvars(*b)),
    ensures
        bdd_nvars(r) == bdd_nvars(*b),
        vals_ok(bdd_sat(r), bdd_nvars(*b)),
        bdd_sat(r).subset_of(bdd_sat(*b)),
        sat_is_singleton(bdd_sat(r)),
{
    let witness = b.sat_witness().unwrap();
    Bdd::from(witness)
}

} // verus!
