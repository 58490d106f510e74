//! The parameter encoder: assigns one BDD variable to every input row of
//! every uninterpreted function of a Boolean network (the rows of implicit
//! update functions and of explicit parameters), and defines the semantic
//! reading of update expressions under a parameter valuation.

use vstd::prelude::*;
use biodivine_lib_bdd::BddVariableSet;
use crate::bdd::ctx_nvars;
use crate::bdd::mk_var_ctx;
use crate::network::BinaryOp;
use crate::network::BooleanNetwork;
use crate::network::FnUpdate;
use crate::network::RegulatoryGraph;
use crate::network::regs_below;
use crate::network::spec_regulators;
use crate::network::VariableId;

verus! {

pub open spec fn pow2(k: nat) -> nat
    decreases k,
{
    if k == 0 {
        1nat
    } else {
        2 * pow2((k - 1) as nat)
    }
}

/// Bit `j` of the natural number `i` (bit 0 is the least significant).
pub open spec fn bit(i: nat, j: nat) -> bool
    decreases j,
{
    if j == 0 {
        i % 2 == 1
    } else {
        bit(i / 2, (j - 1) as nat)
    }
}

/// The row index that `state` encodes over the argument list `args`:
/// the bit of `args[j]` in `state` has weight `2^j`.
pub open spec fn row_from_state(state: Seq<bool>, args: Seq<VariableId>) -> nat
    decreases args.len(),
{
    if args.len() == 0 {
        0
    } else {
        (if state[args[0].0 as int] {
            1nat
        } else {
            0nat
        }) + 2 * row_from_state(state, args.skip(1))
    }
}

pub proof fn lemma_row_from_state_bound(state: Seq<bool>, args: Seq<VariableId>)
    ensures
        row_from_state(state, args) < pow2(args.len()),
    decreases args.len(),
{
    if args.len() > 0 {
        lemma_row_from_state_bound(state, args.skip(1));
    }
}

/// The network-wide state whose bit at position `args[j]` is bit `j` of the
/// row index `i`, and whose other positions are all `false`.
pub open spec fn extend_row_to_state(i: nat, args: Seq<VariableId>, n: nat) -> Seq<bool> {
    Seq::new(
        n,
        |x: int|
            exists|j: int| 0 <= j < args.len() && (#[trigger] args[j]).0 == x && bit(i, j as nat),
    )
}

/// Meaning of a binary connective.
pub open spec fn apply_binop(op: BinaryOp, a: bool, b: bool) -> bool {
    match op {
        BinaryOp::And => a && b,
        BinaryOp::Or => a || b,
        BinaryOp::Xor => a != b,
        BinaryOp::Iff => a == b,
        BinaryOp::Imp => !a || b,
    }
}

/// An encoder: the BDD variable set, and the first variable index of each
/// block of parameter rows (one block per explicit parameter, one per
/// variable with an implicit update function). State variables, when the
/// surrounding context uses them, occupy the indices below `base`.
pub struct BddParameterEncoder {
    pub bdd_variables: BddVariableSet,
    pub base: usize,
    pub param_offsets: Vec<usize>,
    pub implicit_offsets: Vec<usize>,
    pub regulators: Vec<Vec<VariableId>>,
    pub num_bdd_vars: usize,
}

impl BddParameterEncoder {
    /// The encoder lays out the parameter space of `bn`: every block lies
    /// between `base` and `num_bdd_vars`, and the cached regulator lists are
    /// the canonical ones.
    pub open spec fn wf(self, bn: BooleanNetwork) -> bool {
        &&& self.param_offsets@.len() == bn.parameters@.len()
        &&& self.implicit_offsets@.len() == bn.graph.num_vars
        &&& self.regulators@.len() == bn.graph.num_vars
        &&& ctx_nvars(self.bdd_variables) == self.num_bdd_vars
        &&& self.num_bdd_vars <= 65533
        &&& self.base <= self.num_bdd_vars
        &&& forall|p: int|
            0 <= p < bn.parameters@.len() ==> (#[trigger] bn.parameters@[p]).arity <= 16
                && self.base <= self.param_offsets@[p] && self.param_offsets@[p] + pow2(
                bn.parameters@[p].arity as nat,
            ) <= self.num_bdd_vars
        &&& forall|p: int|
            0 <= p < bn.parameters@.len() ==> #[trigger] self.param_offsets@[p] == self.base
                + params_size(bn.parameters@.take(p))
        &&& forall|t: int|
            0 <= t < bn.graph.num_vars ==> #[trigger] self.implicit_offsets@[t] == self.base
                + params_size(bn.parameters@) + implicit_size(bn, t as nat)
        &&& forall|t: int|
            0 <= t < bn.graph.num_vars ==> #[trigger] self.regulators@[t]@ == spec_regulators(
                bn.graph,
                t,
            ) && self.regulators@[t]@.len() <= 16
        &&& forall|t: int|
            0 <= t < bn.graph.num_vars && bn.update_functions@[t] is None
                ==> #[trigger] self.regulators@[t]@.len() <= 16 && self.base
                <= self.implicit_offsets@[t] && self.implicit_offsets@[t] + pow2(
                self.regulators@[t]@.len(),
            ) <= self.num_bdd_vars
    }
}

/// Meaning of an update expression in network state `state` under parameter
/// valuation `v`: a parameter call reads the valuation bit of its row.
pub open spec fn sem_eval(
    enc: BddParameterEncoder,
    f: FnUpdate,
    state: Seq<bool>,
    v: Seq<bool>,
) -> bool
    decreases f,
{
    match f {
        FnUpdate::Const(b) => b,
        FnUpdate::Var(x) => state[x.0 as int],
        FnUpdate::Not(g) => !sem_eval(enc, *g, state, v),
        FnUpdate::Binary(op, l, r) => apply_binop(
            op,
            sem_eval(enc, *l, state, v),
            sem_eval(enc, *r, state, v),
        ),
        FnUpdate::Param(p, args) => v[enc.param_offsets@[p.0 as int] + row_from_state(
            state,
            args@,
        )],
    }
}

/// Meaning of the update function of variable `t` in state `state` under
/// parameter valuation `v`: the declared expression when there is one, and
/// the implicit row parameter of `t` otherwise.
pub open spec fn sem_fn_of(
    enc: BddParameterEncoder,
    bn: BooleanNetwork,
    t: int,
    state: Seq<bool>,
    v: Seq<bool>,
) -> bool {
    match bn.update_functions@[t] {
        Some(f) => sem_eval(enc, f, state, v),
        None => v[enc.implicit_offsets@[t] + row_from_state(state, enc.regulators@[t]@)],
    }
}

/// `2^k` as an executable value.
pub fn pow2_exec(k: usize) -> (r: usize)
    requires
        k <= 16,
    ensures
        r == pow2(k as nat),
        r <= 65536,
{
    let mut r: usize = 1;
    let mut j: usize = 0;
    while j < k
        invariant
            j <= k <= 16,
            r == pow2(j as nat),
            r <= 65536,
        decreases k - j,
    {
        proof {
            lemma_pow2_monotone(j as nat + 1, 16);
            lemma_pow2_16();
        }
        r = r * 2;
        j = j + 1;
    }
    r
}

pub proof fn lemma_pow2_16()
    ensures
        pow2(16) == 65536,
{
    reveal_with_fuel(pow2, 17);
}

pub proof fn lemma_pow2_monotone(a: nat, b: nat)
    requires
        a <= b,
    ensures
        pow2(a) <= pow2(b),
    decreases b,
{
    if a < b && b > 0 {
        lemma_pow2_monotone(a, (b - 1) as nat);
    }
}

/// Bit `j` of `i`, executably.
pub fn bit_exec(i: usize, j: usize) -> (r: bool)
    ensures
        r == bit(i as nat, j as nat),
{
    let mut x: usize = i;
    let mut k: usize = j;
    while k > 0
        invariant
            bit(i as nat, j as nat) == bit(x as nat, k as nat),
        decreases k,
    {
        x = x / 2;
        k = k - 1;
    }
    x % 2 == 1
}

/// Build the network-wide state of row `i` over the argument list `args`:
/// bit `j` of `i` is placed at position `args[j]`, all other positions are
/// zero.
pub fn state_of_row(i: usize, args: &Vec<VariableId>, n: usize) -> (r: Vec<bool>)
    requires
        forall|j: int| 0 <= j < args@.len() ==> (#[trigger] args@[j]).0 < n,
        forall|j: int, k: int| 0 <= j < k < args@.len() ==> args@[j].0 != args@[k].0,
    ensures
        r@ == extend_row_to_state(i as nat, args@, n as nat),
{
    let mut r: Vec<bool> = Vec::new();
    let mut x: usize = 0;
    while x < n
        invariant
            x <= n,
            r@.len() == x,
            forall|y: int| 0 <= y < x ==> !(#[trigger] r@[y]),
        decreases n - x,
    {
        r.push(false);
        x = x + 1;
    }
    let m = args.len();
    let mut j: usize = 0;
    while j < m
        invariant
            m == args@.len(),
            j <= m,
            r@.len() == n,
            forall|k: int| 0 <= k < args@.len() ==> (#[trigger] args@[k]).0 < n,
            forall|k1: int, k2: int| 0 <= k1 < k2 < args@.len() ==> args@[k1].0 != args@[k2].0,
            forall|y: int|
                0 <= y < n ==> ((#[trigger] r@[y]) <==> exists|k: int|
                    0 <= k < j && (#[trigger] args@[k]).0 == y && bit(i as nat, k as nat)),
        decreases m - j,
    {
        let b = bit_exec(i, j);
        if b {
            let pos = args[j].0;
            r.set(pos, true);
            proof {
                assert forall|y: int|
                    0 <= y < n implies ((#[trigger] r@[y]) <==> exists|k: int|
                    0 <= k < j + 1 && (#[trigger] args@[k]).0 == y && bit(i as nat, k as nat)) by {
                    if y == pos {
                        assert(args@[j as int].0 == y && bit(i as nat, j as nat));
                    }
                }
            }
        } else {
            proof {
                assert forall|y: int|
                    0 <= y < n implies ((#[trigger] r@[y]) <==> exists|k: int|
                    0 <= k < j + 1 && (#[trigger] args@[k]).0 == y && bit(i as nat, k as nat)) by {
                    if exists|k: int|
                        0 <= k < j + 1 && (#[trigger] args@[k]).0 == y && bit(i as nat, k as nat) {
                        let k = choose|k: int|
                            0 <= k < j + 1 && (#[trigger] args@[k]).0 == y && bit(
                                i as nat,
                                k as nat,
                            );
                        assert(k < j);
                    }
                }
            }
        }
        j = j + 1;
    }
    proof {
        let ext = extend_row_to_state(i as nat, args@, n as nat);
        assert forall|y: int| 0 <= y < n implies r@[y] == ext[y] by {
            assert(ext[y] == (exists|k: int|
                0 <= k < args@.len() && (#[trigger] args@[k]).0 == y && bit(i as nat, k as nat)));
        }
        assert(r@ =~= ext);
    }
    r
}

/// The row index that `state` encodes over `args`, executably.
pub fn row_of_state(state: &Vec<bool>, args: &Vec<VariableId>) -> (r: usize)
    requires
        args@.len() <= 16,
        forall|j: int| 0 <= j < args@.len() ==> (#[trigger] args@[j]).0 < state@.len(),
    ensures
        r == row_from_state(state@, args@),
        r < pow2(args@.len()),
{
    let m = args.len();
    let mut r: usize = 0;
    let mut j: usize = m;
    proof {
        assert(args@.skip(m as int) =~= Seq::<VariableId>::empty());
    }
    while j > 0
        invariant
            m == args@.len() <= 16,
            j <= m,
            forall|k: int| 0 <= k < args@.len() ==> (#[trigger] args@[k]).0 < state@.len(),
            r == row_from_state(state@, args@.skip(j as int)),
            r < pow2((m - j) as nat),
        decreases j,
    {
        j = j - 1;
        proof {
            lemma_row_from_state_bound(state@, args@.skip(j as int));
            lemma_pow2_monotone((m - j) as nat, 16);
            lemma_pow2_16();
            assert(args@.skip(j as int).skip(1) =~= args@.skip(j as int + 1));
        }
        let b = state[args[j].0];
        r = (if b {
            1
        } else {
            0
        }) + 2 * r;
        proof {
            assert(args@.skip(j as int)[0] == args@[j as int]);
        }
    }
    proof {
        assert(args@.skip(0) =~= args@);
    }
    r
}

impl BddParameterEncoder {
    /// The BDD variable index carrying the value of the implicit update
    /// function of `t` on the input row encoded by `state`.
    pub fn get_implicit(&self, state: &Vec<bool>, t: VariableId) -> (r: u16)
        requires
            t.0 < self.implicit_offsets@.len(),
            t.0 < self.regulators@.len(),
            self.regulators@[t.0 as int]@.len() <= 16,
            self.implicit_offsets@[t.0 as int] + pow2(self.regulators@[t.0 as int]@.len())
                <= self.num_bdd_vars,
            self.num_bdd_vars <= 65533,
            forall|j: int|
                0 <= j < self.regulators@[t.0 as int]@.len()
                    ==> (#[trigger] self.regulators@[t.0 as int]@[j]).0 < state@.len(),
        ensures
            r == self.implicit_offsets@[t.0 as int] + row_from_state(
                state@,
                self.regulators@[t.0 as int]@,
            ),
            (r as nat) < self.num_bdd_vars,
    {
        let row = row_of_state(state, &self.regulators[t.0]);
        let idx = self.implicit_offsets[t.0] + row;
        idx as u16
    }
}

/// A prefix of the parameter list accounts for this many BDD variables.
pub open spec fn params_size(params: Seq<crate::network::Parameter>) -> nat
    decreases params.len(),
{
    if params.len() == 0 {
        0
    } else {
        params_size(params.drop_last()) + pow2(params.last().arity as nat)
    }
}

/// The variables with an implicit update function below `t` account for this
/// many BDD variables.
pub open spec fn implicit_size(bn: BooleanNetwork, t: nat) -> nat
    decreases t,
{
    if t == 0 {
        0
    } else {
        implicit_size(bn, (t - 1) as nat) + if bn.update_functions@[t - 1] is None {
            pow2(spec_regulators(bn.graph, t - 1).len())
        } else {
            0
        }
    }
}

/// The whole symbolic context of `bn` with `base` reserved leading variables
/// needs this many BDD variables.
pub open spec fn layout_total(bn: BooleanNetwork, base: nat) -> nat {
    base + params_size(bn.parameters@) + implicit_size(bn, bn.graph.num_vars as nat)
}

/// The parameter space of `bn` fits the encoder's limits: small fan-in of
/// every uninterpreted function and a total variable count a BDD variable
/// set accepts.
pub open spec fn layout_ok(bn: BooleanNetwork, base: nat) -> bool {
    &&& forall|p: int|
        0 <= p < bn.parameters@.len() ==> (#[trigger] bn.parameters@[p]).arity <= 16
    &&& forall|t: int|
        0 <= t < bn.graph.num_vars ==> spec_regulators(bn.graph, t).len() <= 16
    &&& layout_total(bn, base) <= 65533
}


pub proof fn lemma_params_size_step(params: Seq<crate::network::Parameter>, p: int)
    requires
        0 <= p < params.len(),
    ensures
        params_size(params.take(p + 1)) == params_size(params.take(p)) + pow2(
            params[p].arity as nat,
        ),
{
    assert(params.take(p + 1).drop_last() =~= params.take(p));
    assert(params.take(p + 1).last() == params[p]);
}

pub proof fn lemma_params_size_prefix(params: Seq<crate::network::Parameter>, p: int)
    requires
        0 <= p <= params.len(),
    ensures
        params_size(params.take(p)) <= params_size(params),
    decreases params.len() - p,
{
    if p == params.len() {
        assert(params.take(p) =~= params);
    } else {
        lemma_params_size_step(params, p);
        lemma_params_size_prefix(params, p + 1);
    }
}

pub proof fn lemma_implicit_size_monotone(bn: BooleanNetwork, a: nat, b: nat)
    requires
        a <= b,
    ensures
        implicit_size(bn, a) <= implicit_size(bn, b),
    decreases b,
{
    if a < b && b > 0 {
        lemma_implicit_size_monotone(bn, a, (b - 1) as nat);
    }
}

impl BddParameterEncoder {
    /// Lay out the parameter space of `bn` after `base` reserved leading
    /// variables. Fails exactly when an uninterpreted function has more than
    /// 16 inputs or the layout exceeds the variable set's capacity.
    pub fn new_with_base(bn: &BooleanNetwork, base: usize) -> (r: Result<
        BddParameterEncoder,
        String,
    >)
        requires
            bn.wf(),
            base <= 65533,
        ensures
            r is Ok <==> layout_ok(*bn, base as nat),
            match r {
                Ok(enc) => enc.wf(*bn) && enc.base == base && enc.num_bdd_vars == layout_total(
                    *bn,
                    base as nat,
                ),
                Err(_) => true,
            },
    {
        let mut cur: usize = base;
        let mut param_offsets: Vec<usize> = Vec::new();
        let np = bn.parameters.len();
        for p in 0..np
            invariant
                bn.wf(),
                base <= 65533,
                np == bn.parameters@.len(),
                cur <= 65533,
                cur == base + params_size(bn.parameters@.take(p as int)),
                param_offsets@.len() == p,
                forall|q: int|
                    0 <= q < p ==> (#[trigger] bn.parameters@[q]).arity <= 16 && base
                        <= param_offsets@[q] && param_offsets@[q] + pow2(
                        bn.parameters@[q].arity as nat,
                    ) <= cur,
                forall|q: int|
                    0 <= q < p ==> #[trigger] param_offsets@[q] == base + params_size(
                        bn.parameters@.take(q),
                    ),
                forall|q1: int, q2: int|
                    0 <= q1 < q2 < p ==> param_offsets@[q1] <= param_offsets@[q2],
        {
            let a = bn.parameters[p].arity;
            if a > 16 {
                proof {
                    assert(bn.parameters@[p as int].arity > 16);
                }
                return Err("a parameter has more than 16 arguments".to_string());
            }
            let size = pow2_exec(a);
            if size > 65533 - cur {
                proof {
                    lemma_params_size_step(bn.parameters@, p as int);
                    lemma_params_size_prefix(bn.parameters@, p as int + 1);
                    assert(layout_total(*bn, base as nat) >= base + params_size(
                        bn.parameters@.take(p as int + 1),
                    ));
                    assert(!layout_ok(*bn, base as nat));
                }
                return Err("the parameter space does not fit a BDD variable set".to_string());
            }
            param_offsets.push(cur);
            proof {
                lemma_params_size_step(bn.parameters@, p as int);
            }
            cur = cur + size;
        }
        proof {
            assert(bn.parameters@.take(np as int) =~= bn.parameters@);
        }
        let n = bn.graph.num_vars;
        let mut regulators: Vec<Vec<VariableId>> = Vec::new();
        for t in 0..n
            invariant
                bn.wf(),
                n == bn.graph.num_vars,
                regulators@.len() == t,
                forall|q: int|
                    0 <= q < t ==> (#[trigger] regulators@[q])@ == spec_regulators(bn.graph, q),
        {
            let row = bn.graph.regulators(VariableId(t));
            regulators.push(row);
        }
        let mut implicit_offsets: Vec<usize> = Vec::new();
        for t in 0..n
            invariant
                bn.wf(),
                base <= 65533,
                n == bn.graph.num_vars,
                cur <= 65533,
                cur == base + params_size(bn.parameters@) + implicit_size(*bn, t as nat),
                implicit_offsets@.len() == t,
                regulators@.len() == n,
                forall|q: int|
                    0 <= q < n ==> (#[trigger] regulators@[q])@ == spec_regulators(bn.graph, q),
                forall|q: int| 0 <= q < t ==> (#[trigger] regulators@[q])@.len() <= 16,
                forall|q: int|
                    0 <= q < t && bn.update_functions@[q] is None
                        ==> base <= (#[trigger] implicit_offsets@[q]) && implicit_offsets@[q]
                        + pow2(regulators@[q]@.len()) <= cur,
                forall|q: int|
                    0 <= q < t ==> #[trigger] implicit_offsets@[q] == base + params_size(
                        bn.parameters@,
                    ) + implicit_size(*bn, q as nat),
        {
            let m = regulators[t].len();
            if m > 16 {
                proof {
                    assert(spec_regulators(bn.graph, t as int).len() > 16);
                }
                return Err("a variable has more than 16 regulators".to_string());
            }
            if bn.update_functions[t].is_some() {
                implicit_offsets.push(cur);
            } else {
                let size = pow2_exec(m);
                if size > 65533 - cur {
                    proof {
                        assert(implicit_size(*bn, t as nat + 1) == implicit_size(*bn, t as nat)
                            + pow2(spec_regulators(bn.graph, t as int).len()));
                        lemma_implicit_size_monotone(*bn, t as nat + 1, n as nat);
                        assert(!layout_ok(*bn, base as nat));
                    }
                    return Err(
                        "the parameter space does not fit a BDD variable set".to_string(),
                    );
                }
                implicit_offsets.push(cur);
                cur = cur + size;
            }
        }
        proof {
            assert forall|t: int|
                0 <= t < bn.graph.num_vars implies (#[trigger] spec_regulators(
                bn.graph,
                t,
            )).len() <= 16 by {
                assert(regulators@[t]@ == spec_regulators(bn.graph, t));
                assert(regulators@[t]@.len() <= 16);
            }
            assert(layout_total(*bn, base as nat) == cur);
        }
        let ctx = mk_var_ctx(cur as u16);
        Ok(
            BddParameterEncoder {
                bdd_variables: ctx,
                base,
                param_offsets,
                implicit_offsets,
                regulators,
                num_bdd_vars: cur,
            },
        )
    }

    /// Lay out the parameter space of `bn` with no reserved variables.
    pub fn new(bn: &BooleanNetwork) -> (r: Result<BddParameterEncoder, String>)
        requires
            bn.wf(),
        ensures
            r is Ok <==> layout_ok(*bn, 0),
            match r {
                Ok(enc) => enc.wf(*bn) && enc.base == 0 && enc.num_bdd_vars == layout_total(
                    *bn,
                    0,
                ),
                Err(_) => true,
            },
    {
        BddParameterEncoder::new_with_base(bn, 0)
    }
}

} // verus!
