//! Trusted boundary to the symbolic engine (`biodivine_lib_bdd`).
//!
//! A `Bdd` is modelled as the set of variable valuations that satisfy it
//! (`bdd_sat`), together with the number of variables it ranges over
//! (`bdd_nvars`). Every wrapper below states, over these two names, what the
//! engine's documentation and source promise of the corresponding call.

use vstd::prelude::*;
use biodivine_lib_bdd::{Bdd, BddVariable, BddVariableSet};

verus! {

#[verifier::external_type_specification]
#[verifier::external_body]
pub struct ExBdd(Bdd);

#[verifier::external_type_specification]
#[verifier::external_body]
pub struct ExBddVariableSet(BddVariableSet);

/// The set of valuations (one `bool` per BDD variable, indexed by variable
/// index) that satisfy this BDD.
pub uninterp spec fn bdd_sat(b: Bdd) -> Set<Seq<bool>>;

/// The number of variables of the variable set this BDD was built over.
pub uninterp spec fn bdd_nvars(b: Bdd) -> nat;

/// The number of variables of a BDD variable set.
pub uninterp spec fn ctx_nvars(s: BddVariableSet) -> nat;

/// Number of `true` entries of a valuation.
pub open spec fn count_true(v: Seq<bool>) -> nat
    decreases v.len(),
{
    if v.len() == 0 {
        0
    } else {
        count_true(v.drop_last()) + if v.last() {
            1nat
        } else {
            0nat
        }
    }
}

/// Relies on `BddVariableSet::new_anonymous`: a fresh set of `n` variables
/// (it panics when `n >= u16::MAX - 1`).
#[verifier::external_body]
pub fn mk_var_ctx(n: u16) -> (r: BddVariableSet)
    requires
        n < u16::MAX - 1,
    ensures
        ctx_nvars(r) == n,
{
    BddVariableSet::new_anonymous(n)
}

/// Relies on `BddVariableSet::mk_true`: the constant `true` formula.
#[verifier::external_body]
pub fn mk_true(ctx: &BddVariableSet) -> (r: Bdd)
    ensures
        bdd_nvars(r) == ctx_nvars(*ctx),
        forall|v: Seq<bool>|
            v.len() == ctx_nvars(*ctx) ==> #[trigger] bdd_sat(r).contains(v),
{
    ctx.mk_true()
}

/// Relies on `BddVariableSet::mk_false`: the constant `false` formula.
#[verifier::external_body]
pub fn mk_false(ctx: &BddVariableSet) -> (r: Bdd)
    ensures
        bdd_nvars(r) == ctx_nvars(*ctx),
        forall|v: Seq<bool>|
            v.len() == ctx_nvars(*ctx) ==> !(#[trigger] bdd_sat(r).contains(v)),
{
    ctx.mk_false()
}

/// Relies on `BddVariableSet::mk_var`: the formula that is true exactly when
/// the given variable is true.
#[verifier::external_body]
pub fn mk_var(ctx: &BddVariableSet, i: u16) -> (r: Bdd)
    requires
        (i as nat) < ctx_nvars(*ctx),
    ensures
        bdd_nvars(r) == ctx_nvars(*ctx),
        forall|v: Seq<bool>|
            v.len() == ctx_nvars(*ctx) ==> (#[trigger] bdd_sat(r).contains(v) <==> v[i as int]),
{
    ctx.mk_var(BddVariable::from_index(i as usize))
}

/// Relies on `Bdd::and`: conjunction of two BDDs over one variable set.
#[verifier::external_body]
pub fn bdd_and(a: &Bdd, b: &Bdd) -> (r: Bdd)
    requires
        bdd_nvars(*a) == bdd_nvars(*b),
    ensures
        bdd_nvars(r) == bdd_nvars(*a),
        forall|v: Seq<bool>|
            v.len() == bdd_nvars(*a) ==> (#[trigger] bdd_sat(r).contains(v) <==> (bdd_sat(
                *a,
            ).contains(v) && bdd_sat(*b).contains(v))),
{
    a.and(b)
}

/// Relies on `Bdd::or`: disjunction of two BDDs over one variable set.
#[verifier::external_body]
pub fn bdd_or(a: &Bdd, b: &Bdd) -> (r: Bdd)
    requires
        bdd_nvars(*a) == bdd_nvars(*b),
    ensures
        bdd_nvars(r) == bdd_nvars(*a),
        forall|v: Seq<bool>|
            v.len() == bdd_nvars(*a) ==> (#[trigger] bdd_sat(r).contains(v) <==> (bdd_sat(
                *a,
            ).contains(v) || bdd_sat(*b).contains(v))),
{
    a.or(b)
}

/// Relies on `Bdd::not`: negation of a BDD.
#[verifier::external_body]
pub fn bdd_not(a: &Bdd) -> (r: Bdd)
    ensures
        bdd_nvars(r) == bdd_nvars(*a),
        forall|v: Seq<bool>|
            v.len() == bdd_nvars(*a) ==> (#[trigger] bdd_sat(r).contains(v) <==> !bdd_sat(
                *a,
            ).contains(v)),
{
    a.not()
}

/// Relies on `Bdd::imp`: implication between two BDDs over one variable set.
#[verifier::external_body]
pub fn bdd_imp(a: &Bdd, b: &Bdd) -> (r: Bdd)
    requires
        bdd_nvars(*a) == bdd_nvars(*b),
    ensures
        bdd_nvars(r) == bdd_nvars(*a),
        forall|v: Seq<bool>|
            v.len() == bdd_nvars(*a) ==> (#[trigger] bdd_sat(r).contains(v) <==> (bdd_sat(
                *a,
            ).contains(v) ==> bdd_sat(*b).contains(v))),
{
    a.imp(b)
}

/// Relies on `Bdd::iff`: equivalence of two BDDs over one variable set.
#[verifier::external_body]
pub fn bdd_iff(a: &Bdd, b: &Bdd) -> (r: Bdd)
    requires
        bdd_nvars(*a) == bdd_nvars(*b),
    ensures
        bdd_nvars(r) == bdd_nvars(*a),
        forall|v: Seq<bool>|
            v.len() == bdd_nvars(*a) ==> (#[trigger] bdd_sat(r).contains(v) <==> (bdd_sat(
                *a,
            ).contains(v) <==> bdd_sat(*b).contains(v))),
{
    a.iff(b)
}

/// Relies on `Bdd::xor`: exclusive disjunction of two BDDs over one set.
#[verifier::external_body]
pub fn bdd_xor(a: &Bdd, b: &Bdd) -> (r: Bdd)
    requires
        bdd_nvars(*a) == bdd_nvars(*b),
    ensures
        bdd_nvars(r) == bdd_nvars(*a),
        forall|v: Seq<bool>|
            v.len() == bdd_nvars(*a) ==> (#[trigger] bdd_sat(r).contains(v) <==> !(bdd_sat(
                *a,
            ).contains(v) <==> bdd_sat(*b).contains(v))),
{
    a.xor(b)
}

/// Relies on `Bdd::is_false` and on canonicity of the engine's reduced
/// ordered BDDs: the `false` BDD is the only unsatisfiable one.
#[verifier::external_body]
pub fn bdd_is_false(b: &Bdd) -> (r: bool)
    ensures
        r <==> (forall|v: Seq<bool>|
            v.len() == bdd_nvars(*b) ==> !(#[trigger] bdd_sat(*b).contains(v))),
{
    b.is_false()
}

/// Relies on `Bdd::sat_witness`: `None` exactly on the unsatisfiable BDD,
/// otherwise some satisfying valuation, one `bool` per variable.
#[verifier::external_body]
pub fn bdd_sat_witness(b: &Bdd) -> (r: Option<Vec<bool>>)
    ensures
        match r {
            Some(w) => w@.len() == bdd_nvars(*b) && bdd_sat(*b).contains(w@),
            None => forall|v: Seq<bool>|
                v.len() == bdd_nvars(*b) ==> !(#[trigger] bdd_sat(*b).contains(v)),
        },
{
    match b.sat_witness() {
        Some(w) => Some(w.vector()),
        None => None,
    }
}




/// Relies on `Bdd::var_select`: conjoin with a literal fixing one variable.
#[verifier::external_body]
pub fn bdd_var_select(b: &Bdd, i: u16, value: bool) -> (r: Bdd)
    requires
        (i as nat) < bdd_nvars(*b),
    ensures
        bdd_nvars(r) == bdd_nvars(*b),
        forall|v: Seq<bool>|
            v.len() == bdd_nvars(*b) ==> (#[trigger] bdd_sat(r).contains(v) <==> (bdd_sat(
                *b,
            ).contains(v) && v[i as int] == value)),
{
    b.var_select(BddVariable::from_index(i as usize), value)
}

/// Relies on `Bdd::select`: conjoin with literals fixing several variables.
#[verifier::external_body]
pub fn bdd_select(b: &Bdd, pairs: &Vec<(u16, bool)>) -> (r: Bdd)
    requires
        forall|j: int| 0 <= j < pairs@.len() ==> ((#[trigger] pairs@[j]).0 as nat) < bdd_nvars(*b),
        forall|j: int, k: int| 0 <= j < k < pairs@.len() ==> pairs@[j].0 != pairs@[k].0,
    ensures
        bdd_nvars(r) == bdd_nvars(*b),
        forall|v: Seq<bool>|
            v.len() == bdd_nvars(*b) ==> (#[trigger] bdd_sat(r).contains(v) <==> (bdd_sat(
                *b,
            ).contains(v) && forall|j: int|
                0 <= j < pairs@.len() ==> v[(#[trigger] pairs@[j]).0 as int] == pairs@[j].1)),
{
    let list: Vec<(BddVariable, bool)> = pairs.iter().map(
        |p: &(u16, bool)| (BddVariable::from_index(p.0 as usize), p.1),
    ).collect();
    b.select(&list)
}

/// Relies on the derived `Clone` of `Bdd`: a structural copy.
#[verifier::external_body]
pub fn bdd_clone(b: &Bdd) -> (r: Bdd)
    ensures
        bdd_nvars(r) == bdd_nvars(*b),
        bdd_sat(r) == bdd_sat(*b),
{
    b.clone()
}


} // verus!
