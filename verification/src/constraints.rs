//! The static-constraint compiler: for every regulation of a Boolean
//! network, build the symbolic predicate of its declared monotonicity and
//! observability over the parameter space, and conjoin everything into one
//! admissibility predicate.
//!
//! The compiled predicate is proved to hold of exactly the parameter
//! valuations under which every regulation's declared constraints hold
//! semantically (soundness and completeness of the compiler).

use vstd::prelude::*;
use biodivine_lib_bdd::Bdd;
use crate::bdd::bdd_and;
use crate::bdd::bdd_iff;
use crate::bdd::bdd_imp;
use crate::bdd::bdd_not;
use crate::bdd::bdd_or;
use crate::bdd::bdd_sat;
use crate::bdd::bdd_nvars;
use crate::bdd::bdd_xor;
use crate::bdd::mk_false;
use crate::bdd::mk_true;
use crate::bdd::mk_var;
use crate::encoder::BddParameterEncoder;
use crate::encoder::bit;
use crate::encoder::bit_exec;
use crate::encoder::extend_row_to_state;
use crate::encoder::pow2;
use crate::encoder::pow2_exec;
use crate::encoder::row_of_state;
use crate::encoder::sem_eval;
use crate::encoder::sem_fn_of;
use crate::encoder::state_of_row;
use crate::network::BinaryOp;
use crate::network::BooleanNetwork;
use crate::network::FnUpdate;
use crate::network::Monotonicity;
use crate::network::Regulation;
use crate::network::VariableId;
use crate::network::lemma_regs_below_props;
use crate::network::spec_regulators;

verus! {

/// The position of variable `u` in a regulator list.
pub open spec fn reg_pos(row: Seq<VariableId>, u: int) -> int {
    choose|j: int| 0 <= j < row.len() && (#[trigger] row[j]).0 == u
}

/// The `off` state of input row `i` of target `t`: row bits placed at the
/// regulator positions, everything else zero.
pub open spec fn off_state(enc: BddParameterEncoder, bn: BooleanNetwork, t: int, i: nat) -> Seq<
    bool,
> {
    extend_row_to_state(i, enc.regulators@[t]@, bn.graph.num_vars as nat)
}

/// The `on` state: the `off` state with the regulator `u` raised.
pub open spec fn on_state(
    enc: BddParameterEncoder,
    bn: BooleanNetwork,
    t: int,
    i: nat,
    u: int,
) -> Seq<bool> {
    off_state(enc, bn, t, i).update(u, true)
}

/// One input pair behaves monotonically in the declared direction.
pub open spec fn mono_pair_ok(m: Monotonicity, off_val: bool, on_val: bool) -> bool {
    match m {
        Monotonicity::Activation => off_val ==> on_val,
        Monotonicity::Inhibition => on_val ==> off_val,
    }
}

/// Monotonicity of regulation `k` holds semantically under valuation `v`:
/// on every input row of the target with the regulator off, raising the
/// regulator moves the update function in the declared direction.
pub open spec fn sem_mono(
    enc: BddParameterEncoder,
    bn: BooleanNetwork,
    reg: Regulation,
    m: Monotonicity,
    v: Seq<bool>,
) -> bool {
    let t = reg.target.0 as int;
    let u = reg.regulator.0 as int;
    let ju = reg_pos(enc.regulators@[t]@, u) as nat;
    forall|i: nat|
        i < pow2(enc.regulators@[t]@.len()) && !bit(i, ju) ==> mono_pair_ok(
            m,
            sem_fn_of(enc, bn, t, #[trigger] off_state(enc, bn, t, i), v),
            sem_fn_of(enc, bn, t, on_state(enc, bn, t, i, u), v),
        )
}

/// Observability of regulation `k` holds semantically under valuation `v`:
/// some input row of the target witnesses that the regulator changes the
/// update function.
pub open spec fn sem_obs(
    enc: BddParameterEncoder,
    bn: BooleanNetwork,
    reg: Regulation,
    v: Seq<bool>,
) -> bool {
    let t = reg.target.0 as int;
    let u = reg.regulator.0 as int;
    let ju = reg_pos(enc.regulators@[t]@, u) as nat;
    exists|i: nat|
        i < pow2(enc.regulators@[t]@.len()) && !bit(i, ju) && sem_fn_of(
            enc,
            bn,
            t,
            #[trigger] off_state(enc, bn, t, i),
            v,
        ) != sem_fn_of(enc, bn, t, on_state(enc, bn, t, i, u), v)
}

/// All declared constraints of regulation `k` hold under valuation `v`.
pub open spec fn reg_constraint_sem(
    enc: BddParameterEncoder,
    bn: BooleanNetwork,
    k: int,
    v: Seq<bool>,
) -> bool {
    let reg = bn.graph.regulations@[k];
    &&& match reg.monotonicity {
        Some(m) => sem_mono(enc, bn, reg, m, v),
        None => true,
    }
    &&& (reg.observable ==> sem_obs(enc, bn, reg, v))
}

/// All declared constraints of every regulation hold under valuation `v`.
pub open spec fn static_constraints_sem(
    enc: BddParameterEncoder,
    bn: BooleanNetwork,
    v: Seq<bool>,
) -> bool {
    forall|k: int|
        0 <= k < bn.graph.regulations@.len() ==> #[trigger] reg_constraint_sem(enc, bn, k, v)
}

/// Compiler context: the network and its parameter encoder.
pub struct Ctx<'a> {
    pub bn: &'a BooleanNetwork,
    pub encoder: &'a BddParameterEncoder,
}

impl<'a> Ctx<'a> {
    pub fn new(bn: &'a BooleanNetwork, encoder: &'a BddParameterEncoder) -> (r: Ctx<'a>)
        ensures
            r.bn == bn,
            r.encoder == encoder,
    {
        Ctx { bn, encoder }
    }

    /// Transform an input-state pair into a pair of symbolic function values,
    /// for a target with a declared update expression.
    pub fn pair_explicit(&self, states: (&Vec<bool>, &Vec<bool>), fun: &FnUpdate) -> (r: (
        Bdd,
        Bdd,
    ))
        requires
            self.bn.wf(),
            self.encoder.wf(*self.bn),
            crate::network::fn_update_wf(
                *fun,
                self.bn.graph.num_vars as nat,
                self.bn.parameters@,
            ),
            states.0@.len() == self.bn.graph.num_vars,
            states.1@.len() == self.bn.graph.num_vars,
        ensures
            bdd_nvars(r.0) == self.encoder.num_bdd_vars,
            bdd_nvars(r.1) == self.encoder.num_bdd_vars,
            forall|v: Seq<bool>|
                v.len() == self.encoder.num_bdd_vars ==> (#[trigger] bdd_sat(r.0).contains(v)
                    <==> sem_eval(*self.encoder, *fun, states.0@, v)),
            forall|v: Seq<bool>|
                v.len() == self.encoder.num_bdd_vars ==> (#[trigger] bdd_sat(r.1).contains(v)
                    <==> sem_eval(*self.encoder, *fun, states.1@, v)),
    {
        let inactive = symbolic_eval(self.encoder, fun, states.0, Ghost(*self.bn));
        let active = symbolic_eval(self.encoder, fun, states.1, Ghost(*self.bn));
        (inactive, active)
    }

    /// Transform an input-state pair into a pair of symbolic function values,
    /// for a target with an implicit update function.
    pub fn pair_implicit(&self, states: (&Vec<bool>, &Vec<bool>), variable: VariableId) -> (r: (
        Bdd,
        Bdd,
    ))
        requires
            self.bn.wf(),
            self.encoder.wf(*self.bn),
            variable.0 < self.bn.graph.num_vars,
            self.bn.update_functions@[variable.0 as int] is None,
            states.0@.len() == self.bn.graph.num_vars,
            states.1@.len() == self.bn.graph.num_vars,
        ensures
            bdd_nvars(r.0) == self.encoder.num_bdd_vars,
            bdd_nvars(r.1) == self.encoder.num_bdd_vars,
            forall|v: Seq<bool>|
                v.len() == self.encoder.num_bdd_vars ==> (#[trigger] bdd_sat(r.0).contains(v)
                    <==> sem_fn_of(*self.encoder, *self.bn, variable.0 as int, states.0@, v)),
            forall|v: Seq<bool>|
                v.len() == self.encoder.num_bdd_vars ==> (#[trigger] bdd_sat(r.1).contains(v)
                    <==> sem_fn_of(*self.encoder, *self.bn, variable.0 as int, states.1@, v)),
    {
        proof {
            lemma_regs_below_props(
                self.bn.graph,
                variable.0 as int,
                self.bn.graph.num_vars as nat,
            );
        }
        let inactive = self.encoder.get_implicit(states.0, variable);
        let active = self.encoder.get_implicit(states.1, variable);
        let inactive = mk_var(&self.encoder.bdd_variables, inactive);
        let active = mk_var(&self.encoder.bdd_variables, active);
        (inactive, active)
    }
}

/// Symbolic value of an update expression in a concrete network state: a
/// BDD over the parameter variables.
pub(crate) fn symbolic_eval(
    enc: &BddParameterEncoder,
    f: &FnUpdate,
    state: &Vec<bool>,
    Ghost(bn): Ghost<BooleanNetwork>,
) -> (r: Bdd)
    requires
        bn.wf(),
        enc.wf(bn),
        crate::network::fn_update_wf(*f, bn.graph.num_vars as nat, bn.parameters@),
        state@.len() == bn.graph.num_vars,
    ensures
        bdd_nvars(r) == enc.num_bdd_vars,
        forall|v: Seq<bool>|
            v.len() == enc.num_bdd_vars ==> (#[trigger] bdd_sat(r).contains(v) <==> sem_eval(
                *enc,
                *f,
                state@,
                v,
            )),
    decreases *f,
{
    match f {
        FnUpdate::Const(b) => {
            if *b {
                mk_true(&enc.bdd_variables)
            } else {
                mk_false(&enc.bdd_variables)
            }
        },
        FnUpdate::Var(x) => {
            if state[x.0] {
                mk_true(&enc.bdd_variables)
            } else {
                mk_false(&enc.bdd_variables)
            }
        },
        FnUpdate::Not(g) => {
            let inner = symbolic_eval(enc, g, state, Ghost(bn));
            bdd_not(&inner)
        },
        FnUpdate::Binary(op, l, r) => {
            let left = symbolic_eval(enc, l, state, Ghost(bn));
            let right = symbolic_eval(enc, r, state, Ghost(bn));
            match op {
                BinaryOp::And => bdd_and(&left, &right),
                BinaryOp::Or => bdd_or(&left, &right),
                BinaryOp::Xor => bdd_xor(&left, &right),
                BinaryOp::Iff => bdd_iff(&left, &right),
                BinaryOp::Imp => bdd_imp(&left, &right),
            }
        },
        FnUpdate::Param(p, args) => {
            let row = row_of_state(state, args);
            let idx = enc.param_offsets[p.0] + row;
            mk_var(&enc.bdd_variables, idx as u16)
        },
    }
}

/// Symbolic monotonicity of one input pair: for an activation the function
/// may only rise with the regulator, for an inhibition only fall.
pub fn build_monotonicity_pair(inactive: &Bdd, active: &Bdd, monotonicity: Monotonicity) -> (r:
    Bdd)
    requires
        bdd_nvars(*inactive) == bdd_nvars(*active),
    ensures
        bdd_nvars(r) == bdd_nvars(*inactive),
        forall|v: Seq<bool>|
            v.len() == bdd_nvars(*inactive) ==> (#[trigger] bdd_sat(r).contains(v)
                <==> mono_pair_ok(
                monotonicity,
                bdd_sat(*inactive).contains(v),
                bdd_sat(*active).contains(v),
            )),
{
    match monotonicity {
        Monotonicity::Activation => bdd_imp(inactive, active),
        Monotonicity::Inhibition => bdd_imp(active, inactive),
    }
}


/// Find the position of regulator `u` in an ascending regulator list.
fn find_position(row: &Vec<VariableId>, u: VariableId) -> (r: usize)
    requires
        exists|j: int| 0 <= j < row@.len() && (#[trigger] row@[j]).0 == u.0,
        forall|j: int, k: int| 0 <= j < k < row@.len() ==> row@[j].0 != row@[k].0,
    ensures
        r < row@.len(),
        row@[r as int].0 == u.0,
        r as int == reg_pos(row@, u.0 as int),
{
    let m = row.len();
    let mut j: usize = 0;
    while j < m
        invariant
            m == row@.len(),
            j <= m,
            exists|k: int| 0 <= k < row@.len() && (#[trigger] row@[k]).0 == u.0,
            forall|k1: int, k2: int| 0 <= k1 < k2 < row@.len() ==> row@[k1].0 != row@[k2].0,
            forall|k: int| 0 <= k < j ==> (#[trigger] row@[k]).0 != u.0,
        decreases m - j,
    {
        if row[j].0 == u.0 {
            proof {
                let c = reg_pos(row@, u.0 as int);
                assert(0 <= c < row@.len() && row@[c].0 == u.0);
            }
            return j;
        }
        j = j + 1;
    }
    proof {
        let k = choose|k: int| 0 <= k < row@.len() && (#[trigger] row@[k]).0 == u.0;
        assert(false);
    }
    unreached()
}

/// Requirements shared by the four per-regulation constraint builders.
pub open spec fn builder_pre(ctx: Ctx, regulation: Regulation) -> bool {
    &&& ctx.bn.wf()
    &&& ctx.encoder.wf(*ctx.bn)
    &&& regulation.target.0 < ctx.bn.graph.num_vars
    &&& regulation.regulator.0 < ctx.bn.graph.num_vars
    &&& ctx.bn.graph.spec_has_regulation(
        regulation.regulator.0 as int,
        regulation.target.0 as int,
    )
}

/// Symbolic monotonicity constraint of a regulation whose target has an
/// implicit update function.
#[verifier::loop_isolation(false)]
pub fn build_monotonicity_implicit(ctx: &Ctx, regulation: &Regulation) -> (r: Bdd)
    requires
        builder_pre(*ctx, *regulation),
        ctx.bn.update_functions@[regulation.target.0 as int] is None,
        regulation.monotonicity is Some,
    ensures
        bdd_nvars(r) == ctx.encoder.num_bdd_vars,
        forall|v: Seq<bool>|
            v.len() == ctx.encoder.num_bdd_vars ==> (#[trigger] bdd_sat(r).contains(v)
                <==> sem_mono(
                *ctx.encoder,
                *ctx.bn,
                *regulation,
                regulation.monotonicity.unwrap(),
                v,
            )),
{
    let t = regulation.target;
    let u = regulation.regulator;
    let n = ctx.bn.graph.num_vars;
    proof {
        lemma_regs_below_props(ctx.bn.graph, t.0 as int, n as nat);
        assert(ctx.encoder.regulators@[t.0 as int]@ == spec_regulators(
            ctx.bn.graph,
            t.0 as int,
        ));
    }
    let row = &ctx.encoder.regulators[t.0];
    let ju = find_position(row, u);
    let m = row.len();
    let table = pow2_exec(m);
    let mono = regulation.monotonicity.unwrap();
    let mut acc = mk_true(&ctx.encoder.bdd_variables);
    let mut i: usize = 0;
    while i < table
        invariant
            i <= table,
            bdd_nvars(acc) == ctx.encoder.num_bdd_vars,
            forall|v: Seq<bool>|
                v.len() == ctx.encoder.num_bdd_vars ==> (#[trigger] bdd_sat(acc).contains(v)
                    <==> (forall|i2: nat|
                    i2 < i && !bit(i2, ju as nat) ==> mono_pair_ok(
                        mono,
                        sem_fn_of(
                            *ctx.encoder,
                            *ctx.bn,
                            t.0 as int,
                            #[trigger] off_state(*ctx.encoder, *ctx.bn, t.0 as int, i2),
                            v,
                        ),
                        sem_fn_of(
                            *ctx.encoder,
                            *ctx.bn,
                            t.0 as int,
                            on_state(*ctx.encoder, *ctx.bn, t.0 as int, i2, u.0 as int),
                            v,
                        ),
                    ))),
        decreases table - i,
    {
        if !bit_exec(i, ju) {
            let off = state_of_row(i, row, n);
            let mut on = state_of_row(i, row, n);
            on.set(u.0, true);
            let pair = ctx.pair_implicit((&off, &on), t);
            let step = build_monotonicity_pair(&pair.0, &pair.1, mono);
            let ghost prev = acc;
            acc = bdd_and(&acc, &step);
            proof {
                assert forall|v: Seq<bool>|
                    v.len() == ctx.encoder.num_bdd_vars implies (#[trigger] bdd_sat(
                    acc,
                ).contains(v) <==> (forall|i2: nat|
                    i2 < i + 1 && !bit(i2, ju as nat) ==> mono_pair_ok(
                        mono,
                        sem_fn_of(
                            *ctx.encoder,
                            *ctx.bn,
                            t.0 as int,
                            #[trigger] off_state(*ctx.encoder, *ctx.bn, t.0 as int, i2),
                            v,
                        ),
                        sem_fn_of(
                            *ctx.encoder,
                            *ctx.bn,
                            t.0 as int,
                            on_state(*ctx.encoder, *ctx.bn, t.0 as int, i2, u.0 as int),
                            v,
                        ),
                    ))) by {
                    if bdd_sat(acc).contains(v) {
                        assert(bdd_sat(prev).contains(v) && bdd_sat(step).contains(v));
                        assert forall|i2: nat|
                            i2 < i + 1 && !bit(i2, ju as nat) implies mono_pair_ok(
                            mono,
                            sem_fn_of(
                                *ctx.encoder,
                                *ctx.bn,
                                t.0 as int,
                                #[trigger] off_state(*ctx.encoder, *ctx.bn, t.0 as int, i2),
                                v,
                            ),
                            sem_fn_of(
                                *ctx.encoder,
                                *ctx.bn,
                                t.0 as int,
                                on_state(*ctx.encoder, *ctx.bn, t.0 as int, i2, u.0 as int),
                                v,
                            ),
                        ) by {
                            if i2 == i {
                                assert(off@ == off_state(*ctx.encoder, *ctx.bn, t.0 as int, i2));
                                assert(on@ == on_state(
                                    *ctx.encoder,
                                    *ctx.bn,
                                    t.0 as int,
                                    i2,
                                    u.0 as int,
                                ));
                            }
                        }
                    } else {
                        if bdd_sat(prev).contains(v) {
                            assert(!bdd_sat(step).contains(v));
                            assert(off@ == off_state(
                                *ctx.encoder,
                                *ctx.bn,
                                t.0 as int,
                                i as nat,
                            ));
                            assert(on@ == on_state(
                                *ctx.encoder,
                                *ctx.bn,
                                t.0 as int,
                                i as nat,
                                u.0 as int,
                            ));
                            assert(!bit(i as nat, ju as nat));
                            assert(!mono_pair_ok(
                                mono,
                                sem_fn_of(
                                    *ctx.encoder,
                                    *ctx.bn,
                                    t.0 as int,
                                    off_state(*ctx.encoder, *ctx.bn, t.0 as int, i as nat),
                                    v,
                                ),
                                sem_fn_of(
                                    *ctx.encoder,
                                    *ctx.bn,
                                    t.0 as int,
                                    on_state(
                                        *ctx.encoder,
                                        *ctx.bn,
                                        t.0 as int,
                                        i as nat,
                                        u.0 as int,
                                    ),
                                    v,
                                ),
                            ));
                        }
                    }
                }
            }
        }
        i = i + 1;
    }
    acc
}


/// Symbolic observability constraint of a regulation whose target has an
/// implicit update function.
#[verifier::loop_isolation(false)]
pub fn build_observability_implicit(ctx: &Ctx, regulation: &Regulation) -> (r: Bdd)
    requires
        builder_pre(*ctx, *regulation),
        ctx.bn.update_functions@[regulation.target.0 as int] is None,
    ensures
        bdd_nvars(r) == ctx.encoder.num_bdd_vars,
        forall|v: Seq<bool>|
            v.len() == ctx.encoder.num_bdd_vars ==> (#[trigger] bdd_sat(r).contains(v)
                <==> sem_obs(*ctx.encoder, *ctx.bn, *regulation, v)),
{
    let t = regulation.target;
    let u = regulation.regulator;
    let n = ctx.bn.graph.num_vars;
    proof {
        lemma_regs_below_props(ctx.bn.graph, t.0 as int, n as nat);
        assert(ctx.encoder.regulators@[t.0 as int]@ == spec_regulators(
            ctx.bn.graph,
            t.0 as int,
        ));
    }
    let row = &ctx.encoder.regulators[t.0];
    let ju = find_position(row, u);
    let m = row.len();
    let table = pow2_exec(m);
    let mut acc = mk_false(&ctx.encoder.bdd_variables);
    let mut i: usize = 0;
    while i < table
        invariant
            i <= table,
            bdd_nvars(acc) == ctx.encoder.num_bdd_vars,
            forall|v: Seq<bool>|
                v.len() == ctx.encoder.num_bdd_vars ==> (#[trigger] bdd_sat(acc).contains(v)
                    <==> (exists|i2: nat|
                    i2 < i && !bit(i2, ju as nat) && sem_fn_of(
                        *ctx.encoder,
                        *ctx.bn,
                        t.0 as int,
                        #[trigger] off_state(*ctx.encoder, *ctx.bn, t.0 as int, i2),
                        v,
                    ) != sem_fn_of(
                        *ctx.encoder,
                        *ctx.bn,
                        t.0 as int,
                        on_state(*ctx.encoder, *ctx.bn, t.0 as int, i2, u.0 as int),
                        v,
                    ))),
        decreases table - i,
    {
        if !bit_exec(i, ju) {
            let off = state_of_row(i, row, n);
            let mut on = state_of_row(i, row, n);
            on.set(u.0, true);
            let pair = ctx.pair_implicit((&off, &on), t);
            let step = bdd_xor(&pair.0, &pair.1);
            let ghost prev = acc;
            acc = bdd_or(&acc, &step);
            proof {
                assert forall|v: Seq<bool>|
                    v.len() == ctx.encoder.num_bdd_vars implies (#[trigger] bdd_sat(
                    acc,
                ).contains(v) <==> (exists|i2: nat|
                    i2 < i + 1 && !bit(i2, ju as nat) && sem_fn_of(
                        *ctx.encoder,
                        *ctx.bn,
                        t.0 as int,
                        #[trigger] off_state(*ctx.encoder, *ctx.bn, t.0 as int, i2),
                        v,
                    ) != sem_fn_of(
                        *ctx.encoder,
                        *ctx.bn,
                        t.0 as int,
                        on_state(*ctx.encoder, *ctx.bn, t.0 as int, i2, u.0 as int),
                        v,
                    ))) by {
                    assert(off@ == off_state(*ctx.encoder, *ctx.bn, t.0 as int, i as nat));
                    assert(on@ == on_state(
                        *ctx.encoder,
                        *ctx.bn,
                        t.0 as int,
                        i as nat,
                        u.0 as int,
                    ));
                    if bdd_sat(acc).contains(v) {
                        if !bdd_sat(prev).contains(v) {
                            assert(bdd_sat(step).contains(v));
                            assert(!bit(i as nat, ju as nat));
                        }
                    }
                }
            }
        }
        i = i + 1;
    }
    acc
}


/// Symbolic monotonicity constraint of a regulation whose target has an
/// declared update expression.
#[verifier::loop_isolation(false)]
pub fn build_monotonicity_explicit(ctx: &Ctx, regulation: &Regulation, update_function: &FnUpdate) -> (r: Bdd)
    requires
        builder_pre(*ctx, *regulation),
        ctx.bn.update_functions@[regulation.target.0 as int] == Some(*update_function),
        regulation.monotonicity is Some,
    ensures
        bdd_nvars(r) == ctx.encoder.num_bdd_vars,
        forall|v: Seq<bool>|
            v.len() == ctx.encoder.num_bdd_vars ==> (#[trigger] bdd_sat(r).contains(v)
                <==> sem_mono(
                *ctx.encoder,
                *ctx.bn,
                *regulation,
                regulation.monotonicity.unwrap(),
                v,
            )),
{
    let t = regulation.target;
    let u = regulation.regulator;
    let n = ctx.bn.graph.num_vars;
    proof {
        lemma_regs_below_props(ctx.bn.graph, t.0 as int, n as nat);
        assert(ctx.encoder.regulators@[t.0 as int]@ == spec_regulators(
            ctx.bn.graph,
            t.0 as int,
        ));
    }
    let row = &ctx.encoder.regulators[t.0];
    let ju = find_position(row, u);
    let m = row.len();
    let table = pow2_exec(m);
    let mono = regulation.monotonicity.unwrap();
    let mut acc = mk_true(&ctx.encoder.bdd_variables);
    let mut i: usize = 0;
    while i < table
        invariant
            i <= table,
            bdd_nvars(acc) == ctx.encoder.num_bdd_vars,
            forall|v: Seq<bool>|
                v.len() == ctx.encoder.num_bdd_vars ==> (#[trigger] bdd_sat(acc).contains(v)
                    <==> (forall|i2: nat|
                    i2 < i && !bit(i2, ju as nat) ==> mono_pair_ok(
                        mono,
                        sem_fn_of(
                            *ctx.encoder,
                            *ctx.bn,
                            t.0 as int,
                            #[trigger] off_state(*ctx.encoder, *ctx.bn, t.0 as int, i2),
                            v,
                        ),
                        sem_fn_of(
                            *ctx.encoder,
                            *ctx.bn,
                            t.0 as int,
                            on_state(*ctx.encoder, *ctx.bn, t.0 as int, i2, u.0 as int),
                            v,
                        ),
                    ))),
        decreases table - i,
    {
        if !bit_exec(i, ju) {
            let off = state_of_row(i, row, n);
            let mut on = state_of_row(i, row, n);
            on.set(u.0, true);
            let pair = ctx.pair_explicit((&off, &on), update_function);
            let step = build_monotonicity_pair(&pair.0, &pair.1, mono);
            let ghost prev = acc;
            acc = bdd_and(&acc, &step);
            proof {
                assert forall|v: Seq<bool>|
                    v.len() == ctx.encoder.num_bdd_vars implies (#[trigger] bdd_sat(
                    acc,
                ).contains(v) <==> (forall|i2: nat|
                    i2 < i + 1 && !bit(i2, ju as nat) ==> mono_pair_ok(
                        mono,
                        sem_fn_of(
                            *ctx.encoder,
                            *ctx.bn,
                            t.0 as int,
                            #[trigger] off_state(*ctx.encoder, *ctx.bn, t.0 as int, i2),
                            v,
                        ),
                        sem_fn_of(
                            *ctx.encoder,
                            *ctx.bn,
                            t.0 as int,
                            on_state(*ctx.encoder, *ctx.bn, t.0 as int, i2, u.0 as int),
                            v,
                        ),
                    ))) by {
                    if bdd_sat(acc).contains(v) {
                        assert(bdd_sat(prev).contains(v) && bdd_sat(step).contains(v));
                        assert forall|i2: nat|
                            i2 < i + 1 && !bit(i2, ju as nat) implies mono_pair_ok(
                            mono,
                            sem_fn_of(
                                *ctx.encoder,
                                *ctx.bn,
                                t.0 as int,
                                #[trigger] off_state(*ctx.encoder, *ctx.bn, t.0 as int, i2),
                                v,
                            ),
                            sem_fn_of(
                                *ctx.encoder,
                                *ctx.bn,
                                t.0 as int,
                                on_state(*ctx.encoder, *ctx.bn, t.0 as int, i2, u.0 as int),
                                v,
                            ),
                        ) by {
                            if i2 == i {
                                assert(off@ == off_state(*ctx.encoder, *ctx.bn, t.0 as int, i2));
                                assert(on@ == on_state(
                                    *ctx.encoder,
                                    *ctx.bn,
                                    t.0 as int,
                                    i2,
                                    u.0 as int,
                                ));
                            }
                        }
                    } else {
                        if bdd_sat(prev).contains(v) {
                            assert(!bdd_sat(step).contains(v));
                            assert(off@ == off_state(
                                *ctx.encoder,
                                *ctx.bn,
                                t.0 as int,
                                i as nat,
                            ));
                            assert(on@ == on_state(
                                *ctx.encoder,
                                *ctx.bn,
                                t.0 as int,
                                i as nat,
                                u.0 as int,
                            ));
                            assert(!bit(i as nat, ju as nat));
                            assert(!mono_pair_ok(
                                mono,
                                sem_fn_of(
                                    *ctx.encoder,
                                    *ctx.bn,
                                    t.0 as int,
                                    off_state(*ctx.encoder, *ctx.bn, t.0 as int, i as nat),
                                    v,
                                ),
                                sem_fn_of(
                                    *ctx.encoder,
                                    *ctx.bn,
                                    t.0 as int,
                                    on_state(
                                        *ctx.encoder,
                                        *ctx.bn,
                                        t.0 as int,
                                        i as nat,
                                        u.0 as int,
                                    ),
                                    v,
                                ),
                            ));
                        }
                    }
                }
            }
        }
        i = i + 1;
    }
    acc
}

/// Symbolic observability constraint of a regulation whose target has an
/// declared update expression.
#[verifier::loop_isolation(false)]
pub fn build_observability_explicit(ctx: &Ctx, regulation: &Regulation, update_function: &FnUpdate) -> (r: Bdd)
    requires
        builder_pre(*ctx, *regulation),
        ctx.bn.update_functions@[regulation.target.0 as int] == Some(*update_function),
    ensures
        bdd_nvars(r) == ctx.encoder.num_bdd_vars,
        forall|v: Seq<bool>|
            v.len() == ctx.encoder.num_bdd_vars ==> (#[trigger] bdd_sat(r).contains(v)
                <==> sem_obs(*ctx.encoder, *ctx.bn, *regulation, v)),
{
    let t = regulation.target;
    let u = regulation.regulator;
    let n = ctx.bn.graph.num_vars;
    proof {
        lemma_regs_below_props(ctx.bn.graph, t.0 as int, n as nat);
        assert(ctx.encoder.regulators@[t.0 as int]@ == spec_regulators(
            ctx.bn.graph,
            t.0 as int,
        ));
    }
    let row = &ctx.encoder.regulators[t.0];
    let ju = find_position(row, u);
    let m = row.len();
    let table = pow2_exec(m);
    let mut acc = mk_false(&ctx.encoder.bdd_variables);
    let mut i: usize = 0;
    while i < table
        invariant
            i <= table,
            bdd_nvars(acc) == ctx.encoder.num_bdd_vars,
            forall|v: Seq<bool>|
                v.len() == ctx.encoder.num_bdd_vars ==> (#[trigger] bdd_sat(acc).contains(v)
                    <==> (exists|i2: nat|
                    i2 < i && !bit(i2, ju as nat) && sem_fn_of(
                        *ctx.encoder,
                        *ctx.bn,
                        t.0 as int,
                        #[trigger] off_state(*ctx.encoder, *ctx.bn, t.0 as int, i2),
                        v,
                    ) != sem_fn_of(
                        *ctx.encoder,
                        *ctx.bn,
                        t.0 as int,
                        on_state(*ctx.encoder, *ctx.bn, t.0 as int, i2, u.0 as int),
                        v,
                    ))),
        decreases table - i,
    {
        if !bit_exec(i, ju) {
            let off = state_of_row(i, row, n);
            let mut on = state_of_row(i, row, n);
            on.set(u.0, true);
            let pair = ctx.pair_explicit((&off, &on), update_function);
            let step = bdd_xor(&pair.0, &pair.1);
            let ghost prev = acc;
            acc = bdd_or(&acc, &step);
            proof {
                assert forall|v: Seq<bool>|
                    v.len() == ctx.encoder.num_bdd_vars implies (#[trigger] bdd_sat(
                    acc,
                ).contains(v) <==> (exists|i2: nat|
                    i2 < i + 1 && !bit(i2, ju as nat) && sem_fn_of(
                        *ctx.encoder,
                        *ctx.bn,
                        t.0 as int,
                        #[trigger] off_state(*ctx.encoder, *ctx.bn, t.0 as int, i2),
                        v,
                    ) != sem_fn_of(
                        *ctx.encoder,
                        *ctx.bn,
                        t.0 as int,
                        on_state(*ctx.encoder, *ctx.bn, t.0 as int, i2, u.0 as int),
                        v,
                    ))) by {
                    assert(off@ == off_state(*ctx.encoder, *ctx.bn, t.0 as int, i as nat));
                    assert(on@ == on_state(
                        *ctx.encoder,
                        *ctx.bn,
                        t.0 as int,
                        i as nat,
                        u.0 as int,
                    ));
                    if bdd_sat(acc).contains(v) {
                        if !bdd_sat(prev).contains(v) {
                            assert(bdd_sat(step).contains(v));
                            assert(!bit(i as nat, ju as nat));
                        }
                    }
                }
            }
        }
        i = i + 1;
    }
    acc
}


/// Iterates over the input rows of a regulation's target function, yielding
/// the pairs of network states that differ exactly in the regulator's bit
/// (the first state has it off, the second on).
pub struct InputStatesPairIterator {
    pub next_index: usize,
    pub table_size: usize,
    pub mask_pos: usize,
    pub regulators: Vec<VariableId>,
    pub variable: VariableId,
    pub num_vars: usize,
}

impl InputStatesPairIterator {
    pub fn new(bn: &BooleanNetwork, regulation: &Regulation) -> (r: InputStatesPairIterator)
        requires
            bn.wf(),
            regulation.target.0 < bn.graph.num_vars,
            regulation.regulator.0 < bn.graph.num_vars,
            bn.graph.spec_has_regulation(
                regulation.regulator.0 as int,
                regulation.target.0 as int,
            ),
            spec_regulators(bn.graph, regulation.target.0 as int).len() <= 16,
        ensures
            r.next_index == 0,
            r.regulators@ == spec_regulators(bn.graph, regulation.target.0 as int),
            r.table_size == pow2(r.regulators@.len()),
            r.mask_pos as int == reg_pos(r.regulators@, regulation.regulator.0 as int),
            r.variable == regulation.regulator,
            r.num_vars == bn.graph.num_vars,
            r.wf(),
    {
        proof {
            lemma_regs_below_props(
                bn.graph,
                regulation.target.0 as int,
                bn.graph.num_vars as nat,
            );
        }
        let regulators = bn.graph.regulators(regulation.target);
        let mask_pos = find_position(&regulators, regulation.regulator);
        let table_size = pow2_exec(regulators.len());
        InputStatesPairIterator {
            next_index: 0,
            table_size,
            mask_pos,
            regulators,
            variable: regulation.regulator,
            num_vars: bn.graph.num_vars,
        }
    }

    /// Internal consistency of the cursor and the cached row.
    pub open spec fn wf(self) -> bool {
        &&& self.table_size == pow2(self.regulators@.len())
        &&& self.regulators@.len() <= 16
        &&& self.next_index <= self.table_size
        &&& self.mask_pos < self.regulators@.len()
        &&& self.regulators@[self.mask_pos as int].0 == self.variable.0
        &&& self.variable.0 < self.num_vars
        &&& forall|j: int|
            0 <= j < self.regulators@.len() ==> (#[trigger] self.regulators@[j]).0 < self.num_vars
        &&& forall|j: int, k: int|
            0 <= j < k < self.regulators@.len() ==> self.regulators@[j].0 < self.regulators@[k].0
    }

    /// Yield the state pair of the next input row in which the regulator is
    /// off, or `None` when no such row remains.
    #[verifier::loop_isolation(false)]
    pub fn next(&mut self) -> (r: Option<(Vec<bool>, Vec<bool>)>)
        requires
            old(self).wf(),
        ensures
            final(self).wf(),
            final(self).regulators == old(self).regulators,
            final(self).table_size == old(self).table_size,
            final(self).mask_pos == old(self).mask_pos,
            final(self).variable == old(self).variable,
            final(self).num_vars == old(self).num_vars,
            match r {
                Some(pair) => {
                    let i = final(self).next_index - 1;
                    &&& old(self).next_index <= i < old(self).table_size
                    &&& !bit(i as nat, old(self).mask_pos as nat)
                    &&& forall|i2: int|
                        old(self).next_index <= i2 < i ==> #[trigger] bit(
                            i2 as nat,
                            old(self).mask_pos as nat,
                        )
                    &&& pair.0@ == extend_row_to_state(
                        i as nat,
                        old(self).regulators@,
                        old(self).num_vars as nat,
                    )
                    &&& pair.1@ == pair.0@.update(old(self).variable.0 as int, true)
                },
                None => {
                    &&& final(self).next_index == old(self).table_size
                    &&& forall|i2: int|
                        old(self).next_index <= i2 < old(self).table_size ==> #[trigger] bit(
                            i2 as nat,
                            old(self).mask_pos as nat,
                        )
                },
            },
    {
        while self.next_index < self.table_size
            invariant
                old(self).next_index <= self.next_index <= self.table_size,
                self.regulators == old(self).regulators,
                self.table_size == old(self).table_size,
                self.mask_pos == old(self).mask_pos,
                self.variable == old(self).variable,
                self.num_vars == old(self).num_vars,
                forall|i2: int|
                    old(self).next_index <= i2 < self.next_index ==> #[trigger] bit(
                        i2 as nat,
                        old(self).mask_pos as nat,
                    ),
            decreases self.table_size - self.next_index,
        {
            let i = self.next_index;
            self.next_index = i + 1;
            if !bit_exec(i, self.mask_pos) {
                let off = state_of_row(i, &self.regulators, self.num_vars);
                let mut on = state_of_row(i, &self.regulators, self.num_vars);
                on.set(self.variable.0, true);
                return Some((off, on));
            }
        }
        None
    }
}

/// Compile the static constraints of a Boolean network into a single
/// symbolic predicate over its parameter space: the conjunction, over every
/// regulation, of its declared monotonicity and observability constraints.
///
/// The compiler is sound and complete: the resulting predicate holds of a
/// parameter valuation exactly when every regulation's declared constraints
/// hold semantically under the update functions that the valuation induces.
#[verifier::loop_isolation(false)]
pub fn build_static_constraints(bn: &BooleanNetwork, encoder: &BddParameterEncoder) -> (r: Bdd)
    requires
        bn.wf(),
        encoder.wf(*bn),
    ensures
        bdd_nvars(r) == encoder.num_bdd_vars,
        forall|v: Seq<bool>|
            v.len() == encoder.num_bdd_vars ==> (#[trigger] bdd_sat(r).contains(v)
                <==> static_constraints_sem(*encoder, *bn, v)),
{
    let ctx = Ctx::new(bn, encoder);
    let mut condition = mk_true(&encoder.bdd_variables);
    let nr = bn.graph.regulations.len();
    let mut k: usize = 0;
    while k < nr
        invariant
            k <= nr,
            bdd_nvars(condition) == encoder.num_bdd_vars,
            forall|v: Seq<bool>|
                v.len() == encoder.num_bdd_vars ==> (#[trigger] bdd_sat(condition).contains(v)
                    <==> (forall|k2: int|
                    0 <= k2 < k ==> #[trigger] reg_constraint_sem(*encoder, *bn, k2, v))),
        decreases nr - k,
    {
        let reg = bn.graph.regulations[k];
        let ghost prev = condition;
        match &bn.update_functions[reg.target.0] {
            Some(fun) => {
                if reg.monotonicity.is_some() {
                    let monotonicity = build_monotonicity_explicit(&ctx, &reg, fun);
                    condition = bdd_and(&condition, &monotonicity);
                }
                if reg.observable {
                    let observability = build_observability_explicit(&ctx, &reg, fun);
                    condition = bdd_and(&condition, &observability);
                }
            },
            None => {
                if reg.monotonicity.is_some() {
                    let monotonicity = build_monotonicity_implicit(&ctx, &reg);
                    condition = bdd_and(&condition, &monotonicity);
                }
                if reg.observable {
                    let observability = build_observability_implicit(&ctx, &reg);
                    condition = bdd_and(&condition, &observability);
                }
            },
        }
        proof {
            assert forall|v: Seq<bool>|
                v.len() == encoder.num_bdd_vars implies (#[trigger] bdd_sat(condition).contains(
                v,
            ) <==> (forall|k2: int|
                0 <= k2 < k + 1 ==> #[trigger] reg_constraint_sem(*encoder, *bn, k2, v))) by {
                assert(bn.graph.regulations@[k as int] == reg);
                if bdd_sat(condition).contains(v) {
                    assert(bdd_sat(prev).contains(v));
                    assert(reg_constraint_sem(*encoder, *bn, k as int, v));
                } else {
                    if forall|k2: int|
                        0 <= k2 < k + 1 ==> #[trigger] reg_constraint_sem(*encoder, *bn, k2, v) {
                        assert(reg_constraint_sem(*encoder, *bn, k as int, v));
                        assert(bdd_sat(prev).contains(v));
                        assert(false);
                    }
                }
            }
        }
        k = k + 1;
    }
    condition
}

/// Soundness of the compiler: a parameter valuation satisfying the compiled
/// predicate satisfies, semantically, the declared monotonicity and
/// observability constraints of every regulation.
pub proof fn lemma_compiled_predicate_sound(
    enc: BddParameterEncoder,
    bn: BooleanNetwork,
    compiled: Bdd,
    v: Seq<bool>,
)
    requires
        forall|w: Seq<bool>|
            w.len() == enc.num_bdd_vars ==> (#[trigger] bdd_sat(compiled).contains(w)
                <==> static_constraints_sem(enc, bn, w)),
        v.len() == enc.num_bdd_vars,
        bdd_sat(compiled).contains(v),
    ensures
        forall|k: int|
            0 <= k < bn.graph.regulations@.len() ==> #[trigger] reg_constraint_sem(enc, bn, k, v),
{
}

/// Completeness of the compiler: a parameter valuation satisfying every
/// regulation's declared constraints satisfies the compiled predicate.
pub proof fn lemma_compiled_predicate_complete(
    enc: BddParameterEncoder,
    bn: BooleanNetwork,
    compiled: Bdd,
    v: Seq<bool>,
)
    requires
        forall|w: Seq<bool>|
            w.len() == enc.num_bdd_vars ==> (#[trigger] bdd_sat(compiled).contains(w)
                <==> static_constraints_sem(enc, bn, w)),
        v.len() == enc.num_bdd_vars,
        forall|k: int|
            0 <= k < bn.graph.regulations@.len() ==> #[trigger] reg_constraint_sem(enc, bn, k, v),
    ensures
        bdd_sat(compiled).contains(v),
{
}

} // verus!
