//! Core data model: variables, signs, regulations, regulatory graphs,
//! update functions and Boolean networks.

use vstd::prelude::*;

verus! {

/// Dense identifier of a network variable: an index in `[0, n)`.
#[derive(Clone, Copy, PartialEq, Eq, Structural, Debug, Hash)]
pub struct VariableId(pub usize);

/// Identifier of an explicit (named) parameter of a Boolean network.
#[derive(Clone, Copy, PartialEq, Eq, Structural, Debug)]
pub struct ParamId(pub usize);

/// The sign of a regulation edge.
#[derive(Clone, Copy, PartialEq, Eq, Structural, Debug, Hash)]
pub enum Sign {
    Positive,
    Negative,
}

/// Sign addition is the parity group: `Positive` is the identity and
/// `Negative` is self-inverse.
pub open spec fn sign_add(a: Sign, b: Sign) -> Sign {
    if a == b {
        Sign::Positive
    } else {
        Sign::Negative
    }
}

impl Sign {
    /// Parity-group addition over signs.
    pub fn add(self, rhs: Sign) -> (r: Sign)
        ensures
            r == sign_add(self, rhs),
    {
        match (self, rhs) {
            (Sign::Positive, Sign::Positive) => Sign::Positive,
            (Sign::Negative, Sign::Negative) => Sign::Positive,
            (Sign::Positive, Sign::Negative) => Sign::Negative,
            (Sign::Negative, Sign::Positive) => Sign::Negative,
        }
    }
}

/// Sign addition forms a commutative group: it is associative, `Positive`
/// is the identity, and `Negative` is its own inverse.
pub proof fn lemma_sign_group_laws(a: Sign, b: Sign, c: Sign)
    ensures
        sign_add(sign_add(a, b), c) == sign_add(a, sign_add(b, c)),
        sign_add(a, Sign::Positive) == a,
        sign_add(Sign::Negative, Sign::Negative) == Sign::Positive,
        sign_add(a, b) == sign_add(b, a),
{
}

/// Declared monotonicity of a regulation.
#[derive(Clone, Copy, PartialEq, Eq, Structural, Debug)]
pub enum Monotonicity {
    Activation,
    Inhibition,
}

/// One regulation `regulator -> target`, with an optional declared
/// monotonicity and an observability flag.
#[derive(Clone, Copy, PartialEq, Eq, Structural, Debug)]
pub struct Regulation {
    pub regulator: VariableId,
    pub target: VariableId,
    pub observable: bool,
    pub monotonicity: Option<Monotonicity>,
}

/// The regulation skeleton of a Boolean network: `num_vars` variables and a
/// list of regulations between them.
pub struct RegulatoryGraph {
    pub num_vars: usize,
    pub regulations: Vec<Regulation>,
}

impl RegulatoryGraph {
    /// All regulation endpoints are valid variables and no two regulations
    /// connect the same ordered pair of variables.
    pub open spec fn wf(self) -> bool {
        &&& forall|i: int|
            0 <= i < self.regulations@.len() ==> (#[trigger] self.regulations@[i]).regulator.0
                < self.num_vars && self.regulations@[i].target.0 < self.num_vars
        &&& forall|i: int, j: int|
            0 <= i < j < self.regulations@.len() ==> !(
            (#[trigger] self.regulations@[i]).regulator == (
            #[trigger] self.regulations@[j]).regulator
                && self.regulations@[i].target == self.regulations@[j].target)
    }

    /// True if some regulation connects `u` to `t`.
    pub open spec fn spec_has_regulation(self, u: int, t: int) -> bool {
        exists|i: int|
            0 <= i < self.regulations@.len() && (#[trigger] self.regulations@[i]).regulator.0
                == u && self.regulations@[i].target.0 == t
    }

    /// An empty regulatory graph over `num_vars` variables.
    pub fn new(num_vars: usize) -> (r: RegulatoryGraph)
        ensures
            r.wf(),
            r.num_vars == num_vars,
            r.regulations@.len() == 0,
    {
        RegulatoryGraph { num_vars, regulations: Vec::new() }
    }

    pub fn num_vars(&self) -> (r: usize)
        ensures
            r == self.num_vars,
    {
        self.num_vars
    }

    /// Add a regulation. Fails when an endpoint is out of range or when the
    /// ordered pair `(regulator, target)` is already regulated.
    pub fn add_regulation(
        &mut self,
        regulator: VariableId,
        target: VariableId,
        observable: bool,
        monotonicity: Option<Monotonicity>,
    ) -> (r: Result<(), String>)
        requires
            old(self).wf(),
        ensures
            final(self).wf(),
            final(self).num_vars == old(self).num_vars,
            r is Ok ==> final(self).regulations@ == old(self).regulations@.push(
                Regulation { regulator, target, observable, monotonicity },
            ),
            r is Err ==> *final(self) == *old(self),
            r is Ok <==> (regulator.0 < old(self).num_vars && target.0 < old(self).num_vars && !old(
                self,
            ).spec_has_regulation(regulator.0 as int, target.0 as int)),
    {
        if regulator.0 >= self.num_vars || target.0 >= self.num_vars {
            return Err("regulation endpoint is not a valid variable".to_string());
        }
        let n = self.regulations.len();
        for i in 0..n
            invariant
                *self == *old(self),
                self.wf(),
                n == self.regulations@.len(),
                regulator.0 < self.num_vars,
                target.0 < self.num_vars,
                forall|j: int|
                    0 <= j < i ==> !((#[trigger] self.regulations@[j]).regulator == regulator
                        && self.regulations@[j].target == target),
        {
            let r = &self.regulations[i];
            if r.regulator == regulator && r.target == target {
                proof {
                    assert(self.regulations@[i as int].regulator.0 == regulator.0);
                }
                return Err("this pair of variables is already regulated".to_string());
            }
        }
        proof {
            assert(!self.spec_has_regulation(regulator.0 as int, target.0 as int));
        }
        self.regulations.push(Regulation { regulator, target, observable, monotonicity });
        Ok(())
    }

    /// The regulators of `target`, in ascending order of variable id,
    /// without duplicates.
    pub fn regulators(&self, target: VariableId) -> (r: Vec<VariableId>)
        requires
            self.wf(),
        ensures
            forall|j: int| 0 <= j < r@.len() ==> (#[trigger] r@[j]).0 < self.num_vars,
            forall|j: int, k: int| 0 <= j < k < r@.len() ==> r@[j].0 < r@[k].0,
            forall|j: int|
                0 <= j < r@.len() ==> self.spec_has_regulation((#[trigger] r@[j]).0 as int, target.0 as int),
            forall|u: int|
                0 <= u < self.num_vars && self.spec_has_regulation(u, target.0 as int)
                    ==> exists|j: int| 0 <= j < r@.len() && (#[trigger] r@[j]).0 == u,
            r@ == spec_regulators(*self, target.0 as int),
    {
        let mut result: Vec<VariableId> = Vec::new();
        let n = self.num_vars;
        for u in 0..n
            invariant
                self.wf(),
                n == self.num_vars,
                forall|j: int| 0 <= j < result@.len() ==> (#[trigger] result@[j]).0 < u,
                forall|j: int, k: int| 0 <= j < k < result@.len() ==> result@[j].0 < result@[k].0,
                forall|j: int|
                    0 <= j < result@.len() ==> self.spec_has_regulation(
                        (#[trigger] result@[j]).0 as int,
                        target.0 as int,
                    ),
                forall|w: int|
                    0 <= w < u && self.spec_has_regulation(w, target.0 as int) ==> exists|j: int|
                        0 <= j < result@.len() && (#[trigger] result@[j]).0 == w,
                result@ == regs_below(*self, target.0 as int, u as nat),
        {
            if self.has_regulation(VariableId(u), target) {
                let ghost prev = result@;
                result.push(VariableId(u));
                proof {
                    assert forall|w: int|
                        0 <= w < u + 1 && self.spec_has_regulation(w, target.0 as int)
                            implies exists|j: int|
                            0 <= j < result@.len() && (#[trigger] result@[j]).0 == w by {
                        if w == u {
                            assert(result@[prev.len() as int].0 == w);
                        } else {
                            let j = choose|j: int| 0 <= j < prev.len() && (#[trigger] prev[j]).0 == w;
                            assert(result@[j].0 == w);
                        }
                    }
                }
            }
        }
        result
    }

    /// True if some regulation connects `u` to `t`.
    pub fn has_regulation(&self, u: VariableId, t: VariableId) -> (r: bool)
        ensures
            r == self.spec_has_regulation(u.0 as int, t.0 as int),
    {
        let n = self.regulations.len();
        for i in 0..n
            invariant
                n == self.regulations@.len(),
                forall|j: int|
                    0 <= j < i ==> !((#[trigger] self.regulations@[j]).regulator.0 == u.0
                        && self.regulations@[j].target.0 == t.0),
        {
            let r = &self.regulations[i];
            if r.regulator.0 == u.0 && r.target.0 == t.0 {
                return true;
            }
        }
        false
    }
}

/// The canonical ascending list of regulators of `t` below bound `u`.
pub open spec fn regs_below(rg: RegulatoryGraph, t: int, u: nat) -> Seq<VariableId>
    decreases u,
{
    if u == 0 {
        Seq::empty()
    } else {
        regs_below(rg, t, (u - 1) as nat) + if rg.spec_has_regulation(u - 1, t) {
            seq![VariableId((u - 1) as usize)]
        } else {
            Seq::empty()
        }
    }
}

/// The canonical regulator list of `t`: ascending, without duplicates.
pub open spec fn spec_regulators(rg: RegulatoryGraph, t: int) -> Seq<VariableId> {
    regs_below(rg, t, rg.num_vars as nat)
}

/// Properties of the canonical regulator list: ids below the bound,
/// strictly ascending, and containing exactly the regulators.
pub proof fn lemma_regs_below_props(rg: RegulatoryGraph, t: int, u: nat)
    ensures
        forall|j: int|
            0 <= j < regs_below(rg, t, u).len() ==> (#[trigger] regs_below(rg, t, u)[j]).0 < u,
        forall|j: int, k: int|
            0 <= j < k < regs_below(rg, t, u).len() ==> regs_below(rg, t, u)[j].0 < regs_below(
                rg,
                t,
                u,
            )[k].0,
        forall|w: int|
            0 <= w < u && rg.spec_has_regulation(w, t) ==> exists|j: int|
                0 <= j < regs_below(rg, t, u).len() && (#[trigger] regs_below(rg, t, u)[j]).0 == w,
        forall|j: int|
            0 <= j < regs_below(rg, t, u).len() ==> rg.spec_has_regulation(
                (#[trigger] regs_below(rg, t, u)[j]).0 as int,
                t,
            ),
    decreases u,
{
    if u > 0 {
        lemma_regs_below_props(rg, t, (u - 1) as nat);
        let prev = regs_below(rg, t, (u - 1) as nat);
        let cur = regs_below(rg, t, u);
        assert forall|w: int|
            0 <= w < u && rg.spec_has_regulation(w, t) implies exists|j: int|
            0 <= j < cur.len() && (#[trigger] cur[j]).0 == w by {
            if w == u - 1 {
                assert(cur[cur.len() - 1].0 == w);
            } else {
                let j = choose|j: int| 0 <= j < prev.len() && (#[trigger] prev[j]).0 == w;
                assert(cur[j].0 == w);
            }
        }
    }
}

/// Binary connectives of an update-function expression.
#[derive(Clone, Copy, PartialEq, Eq, Structural, Debug)]
pub enum BinaryOp {
    And,
    Or,
    Xor,
    Iff,
    Imp,
}

/// A (possibly partially specified) Boolean update expression over network
/// variables, with calls to named uninterpreted parameters.
#[derive(Debug)]
pub enum FnUpdate {
    Const(bool),
    Var(VariableId),
    Not(Box<FnUpdate>),
    Binary(BinaryOp, Box<FnUpdate>, Box<FnUpdate>),
    Param(ParamId, Vec<VariableId>),
}

/// An explicit parameter: an uninterpreted Boolean function of `arity`
/// Boolean arguments.
#[derive(Clone, Copy, PartialEq, Eq, Structural, Debug)]
pub struct Parameter {
    pub arity: usize,
}

/// Well-formedness of an update expression within a network of `n` variables
/// and the given declared parameters: every variable is in range and every
/// parameter call names a declared parameter with exactly `arity` arguments.
pub open spec fn fn_update_wf(f: FnUpdate, n: nat, params: Seq<Parameter>) -> bool
    decreases f,
{
    match f {
        FnUpdate::Const(_) => true,
        FnUpdate::Var(v) => v.0 < n,
        FnUpdate::Not(inner) => fn_update_wf(*inner, n, params),
        FnUpdate::Binary(_, l, r) => fn_update_wf(*l, n, params) && fn_update_wf(*r, n, params),
        FnUpdate::Param(p, args) => p.0 < params.len() && args@.len() == params[p.0 as int].arity
            && forall|j: int| 0 <= j < args@.len() ==> (#[trigger] args@[j]).0 < n,
    }
}

/// Check well-formedness of an update expression.
#[verifier::loop_isolation(false)]
pub fn check_fn_update(f: &FnUpdate, n: usize, params: &Vec<Parameter>) -> (r: bool)
    ensures
        r == fn_update_wf(*f, n as nat, params@),
    decreases *f,
{
    match f {
        FnUpdate::Const(_) => true,
        FnUpdate::Var(v) => v.0 < n,
        FnUpdate::Not(inner) => check_fn_update(inner, n, params),
        FnUpdate::Binary(_, l, r) => {
            let lw = check_fn_update(l, n, params);
            if lw {
                check_fn_update(r, n, params)
            } else {
                false
            }
        },
        FnUpdate::Param(p, args) => {
            if p.0 >= params.len() {
                return false;
            }
            if args.len() != params[p.0].arity {
                return false;
            }
            let m = args.len();
            for j in 0..m
                invariant
                    m == args@.len(),
                    forall|k: int| 0 <= k < j ==> (#[trigger] args@[k]).0 < n,
            {
                if args[j].0 >= n {
                    proof {
                        assert(args@[j as int].0 >= n);
                    }
                    return false;
                }
            }
            true
        },
    }
}

/// Every variable an update expression of `t` reads, directly or as a
/// parameter argument, is a declared regulator of `t`.
pub open spec fn fn_update_args_are_regulators(f: FnUpdate, rg: RegulatoryGraph, t: int) -> bool
    decreases f,
{
    match f {
        FnUpdate::Const(_) => true,
        FnUpdate::Var(x) => rg.spec_has_regulation(x.0 as int, t),
        FnUpdate::Not(inner) => fn_update_args_are_regulators(*inner, rg, t),
        FnUpdate::Binary(_, l, r) => fn_update_args_are_regulators(*l, rg, t)
            && fn_update_args_are_regulators(*r, rg, t),
        FnUpdate::Param(_, args) => forall|j: int|
            0 <= j < args@.len() ==> rg.spec_has_regulation((#[trigger] args@[j]).0 as int, t),
    }
}

/// Check that an update expression reads only regulators of its target.
#[verifier::loop_isolation(false)]
pub fn check_fn_update_args(f: &FnUpdate, rg: &RegulatoryGraph, t: VariableId) -> (r: bool)
    ensures
        r == fn_update_args_are_regulators(*f, *rg, t.0 as int),
    decreases *f,
{
    match f {
        FnUpdate::Const(_) => true,
        FnUpdate::Var(x) => rg.has_regulation(*x, t),
        FnUpdate::Not(inner) => check_fn_update_args(inner, rg, t),
        FnUpdate::Binary(_, l, r) => {
            let lw = check_fn_update_args(l, rg, t);
            if lw {
                check_fn_update_args(r, rg, t)
            } else {
                false
            }
        },
        FnUpdate::Param(_, args) => {
            let m = args.len();
            for j in 0..m
                invariant
                    m == args@.len(),
                    forall|k: int|
                        0 <= k < j ==> rg.spec_has_regulation(
                            (#[trigger] args@[k]).0 as int,
                            t.0 as int,
                        ),
            {
                if !rg.has_regulation(args[j], t) {
                    proof {
                        assert(!rg.spec_has_regulation(args@[j as int].0 as int, t.0 as int));
                    }
                    return false;
                }
            }
            true
        },
    }
}

/// A Boolean network: a regulatory graph, declared parameters, and one
/// optional update expression per variable (a variable without one has a
/// fully parametric, implicit update function).
pub struct BooleanNetwork {
    pub graph: RegulatoryGraph,
    pub parameters: Vec<Parameter>,
    pub update_functions: Vec<Option<FnUpdate>>,
}

impl BooleanNetwork {
    /// Every declared update expression is well formed.
    pub open spec fn wf(self) -> bool {
        &&& self.graph.wf()
        &&& self.update_functions@.len() == self.graph.num_vars
        &&& forall|v: int|
            0 <= v < self.update_functions@.len() ==> match #[trigger] self.update_functions@[v] {
                Some(f) => fn_update_wf(f, self.graph.num_vars as nat, self.parameters@),
                None => true,
            }
    }

    /// A network over the given regulatory graph where every update function
    /// is implicit.
    pub fn new(graph: RegulatoryGraph) -> (r: BooleanNetwork)
        requires
            graph.wf(),
        ensures
            r.wf(),
            r.graph == graph,
            r.parameters@.len() == 0,
            forall|v: int| 0 <= v < r.update_functions@.len() ==> r.update_functions@[v] is None,
    {
        let n = graph.num_vars;
        let mut update_functions: Vec<Option<FnUpdate>> = Vec::new();
        for i in 0..n
            invariant
                update_functions@.len() == i,
                forall|v: int| 0 <= v < i ==> update_functions@[v] is None,
        {
            update_functions.push(None);
        }
        BooleanNetwork { graph, parameters: Vec::new(), update_functions }
    }

    pub fn num_vars(&self) -> (r: usize)
        ensures
            r == self.graph.num_vars,
    {
        self.graph.num_vars
    }

    /// Declare a fresh parameter of the given arity and return its id.
    pub fn add_parameter(&mut self, arity: usize) -> (r: ParamId)
        requires
            old(self).wf(),
        ensures
            final(self).wf(),
            final(self).parameters@ == old(self).parameters@.push(Parameter { arity }),
            final(self).graph == old(self).graph,
            final(self).update_functions == old(self).update_functions,
            r.0 == old(self).parameters@.len(),
    {
        let id = self.parameters.len();
        self.parameters.push(Parameter { arity });
        proof {
            assert forall|v: int| 0 <= v < self.update_functions@.len() implies match #[trigger] self.update_functions@[v] {
                Some(f) => fn_update_wf(f, self.graph.num_vars as nat, self.parameters@),
                None => true,
            } by {
                match self.update_functions@[v] {
                    Some(f) => {
                        lemma_fn_update_wf_params_extend(
                            f,
                            self.graph.num_vars as nat,
                            old(self).parameters@,
                            self.parameters@,
                        );
                    },
                    None => {},
                }
            }
        }
        ParamId(id)
    }

    /// Set the update expression of `v`. Fails when `v` is out of range,
    /// the expression is not well formed, or it reads a variable that is
    /// not a declared regulator of `v`.
    pub fn set_update_function(&mut self, v: VariableId, f: FnUpdate) -> (r: Result<(), String>)
        requires
            old(self).wf(),
        ensures
            final(self).wf(),
            final(self).graph == old(self).graph,
            final(self).parameters == old(self).parameters,
            r is Ok <==> (v.0 < old(self).graph.num_vars && fn_update_wf(
                f,
                old(self).graph.num_vars as nat,
                old(self).parameters@,
            ) && fn_update_args_are_regulators(f, old(self).graph, v.0 as int)),
            r is Ok ==> final(self).update_functions@ == old(self).update_functions@.update(
                v.0 as int,
                Some(f),
            ),
            r is Err ==> *final(self) == *old(self),
    {
        if v.0 >= self.graph.num_vars {
            return Err("no such variable".to_string());
        }
        if !check_fn_update(&f, self.graph.num_vars, &self.parameters) {
            return Err("update expression is not well formed".to_string());
        }
        if !check_fn_update_args(&f, &self.graph, v) {
            return Err("the update expression reads a variable that is not a regulator".to_string());
        }
        self.update_functions.set(v.0, Some(f));
        Ok(())
    }
}

/// Well-formedness of an update expression is preserved when the parameter
/// list is extended at the end.
proof fn lemma_fn_update_wf_params_extend(
    f: FnUpdate,
    n: nat,
    params: Seq<Parameter>,
    extended: Seq<Parameter>,
)
    requires
        fn_update_wf(f, n, params),
        params.is_prefix_of(extended),
    ensures
        fn_update_wf(f, n, extended),
    decreases f,
{
    match f {
        FnUpdate::Const(_) => {},
        FnUpdate::Var(_) => {},
        FnUpdate::Not(inner) => {
            lemma_fn_update_wf_params_extend(*inner, n, params, extended);
        },
        FnUpdate::Binary(_, l, r) => {
            lemma_fn_update_wf_params_extend(*l, n, params, extended);
            lemma_fn_update_wf_params_extend(*r, n, params, extended);
        },
        FnUpdate::Param(_, _) => {},
    }
}

} // verus!
