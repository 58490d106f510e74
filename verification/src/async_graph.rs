//! The symbolic view of a Boolean network: a symbolic context over state
//! and parameter variables, the admissible color (parameterization) space
//! compiled from the static constraints, and witness extraction.

use vstd::prelude::*;
use biodivine_lib_bdd::Bdd;
use crate::bdd::bdd_clone;
use crate::bdd::bdd_is_false;
use crate::bdd::bdd_nvars;
use crate::bdd::bdd_sat;
use crate::bdd::bdd_sat_witness;
use crate::bdd::bdd_select;
use crate::bdd::bdd_var_select;
use crate::bdd::mk_false;
use crate::constraints::build_static_constraints;
use crate::constraints::static_constraints_sem;
use crate::encoder::BddParameterEncoder;
use crate::encoder::layout_ok;
use crate::encoder::layout_total;
use crate::encoder::pow2;
use crate::encoder::row_from_state;
use crate::encoder::sem_eval;
use crate::encoder::sem_fn_of;
use crate::encoder::lemma_row_from_state_bound;
use crate::encoder::lemma_pow2_monotone;
use crate::encoder::lemma_pow2_16;
use crate::network::BinaryOp;
use crate::network::BooleanNetwork;
use crate::network::FnUpdate;
use crate::network::RegulatoryGraph;
use crate::network::VariableId;
use crate::network::fn_update_wf;
use crate::network::lemma_regs_below_props;

verus! {

/// An update expression without parameter calls.
pub open spec fn fn_update_no_params(f: FnUpdate) -> bool
    decreases f,
{
    match f {
        FnUpdate::Const(_) => true,
        FnUpdate::Var(_) => true,
        FnUpdate::Not(g) => fn_update_no_params(*g),
        FnUpdate::Binary(_, l, r) => fn_update_no_params(*l) && fn_update_no_params(*r),
        FnUpdate::Param(_, _) => false,
    }
}

/// The symbolic context of a network: one BDD variable per network variable
/// (the state variables, at the low indices) followed by the parameter
/// variables laid out by the encoder.
pub struct SymbolicContext {
    pub encoder: BddParameterEncoder,
    pub state_variables: Vec<u16>,
}

impl SymbolicContext {
    pub open spec fn wf(self, bn: BooleanNetwork) -> bool {
        &&& self.encoder.wf(bn)
        &&& self.encoder.base == bn.graph.num_vars
        &&& self.state_variables@.len() == bn.graph.num_vars
        &&& forall|j: int|
            0 <= j < self.state_variables@.len() ==> (#[trigger] self.state_variables@[j]) as int
                == j
    }

    /// Build the symbolic context of `bn`. Fails exactly when the state and
    /// parameter space does not fit one BDD variable set.
    pub fn new(bn: &BooleanNetwork) -> (r: Result<SymbolicContext, String>)
        requires
            bn.wf(),
        ensures
            r is Ok <==> (bn.graph.num_vars <= 65533 && layout_ok(
                *bn,
                bn.graph.num_vars as nat,
            )),
            match r {
                Ok(sc) => sc.wf(*bn),
                Err(_) => true,
            },
    {
        let n = bn.graph.num_vars;
        if n > 65533 {
            proof {
                assert(layout_total(*bn, n as nat) >= n);
            }
            return Err("the network does not fit a BDD variable set".to_string());
        }
        let encoder = match BddParameterEncoder::new_with_base(bn, n) {
            Ok(e) => e,
            Err(e) => {
                return Err(e);
            },
        };
        let mut state_variables: Vec<u16> = Vec::new();
        let mut j: usize = 0;
        while j < n
            invariant
                j <= n <= 65533,
                state_variables@.len() == j,
                forall|q: int|
                    0 <= q < j ==> (#[trigger] state_variables@[q]) as int == q,
            decreases n - j,
        {
            state_variables.push(j as u16);
            j = j + 1;
        }
        Ok(SymbolicContext { encoder, state_variables })
    }
}

/// A set of colors: parameter valuations, as a BDD over the parameter-only
/// variable set.
pub struct GraphColors {
    pub bdd: Bdd,
}

impl GraphColors {
    /// The underlying BDD of this color set.
    pub fn as_bdd(&self) -> (r: &Bdd)
        ensures
            r == &self.bdd,
    {
        &self.bdd
    }

    /// True when this color set is empty.
    pub fn is_empty(&self) -> (r: bool)
        ensures
            r <==> (forall|v: Seq<bool>|
                v.len() == bdd_nvars(self.bdd) ==> !(#[trigger] bdd_sat(self.bdd).contains(v))),
    {
        bdd_is_false(&self.bdd)
    }
}

/// A set of colored vertices: pairs of a network state and a parameter
/// valuation, as a BDD over the full symbolic context.
pub struct GraphColoredVertices {
    pub bdd: Bdd,
}

impl GraphColoredVertices {
    /// The underlying BDD of this colored vertex set.
    pub fn as_bdd(&self) -> (r: &Bdd)
        ensures
            r == &self.bdd,
    {
        &self.bdd
    }

    /// True when this set is empty.
    pub fn is_empty(&self) -> (r: bool)
        ensures
            r <==> (forall|v: Seq<bool>|
                v.len() == bdd_nvars(self.bdd) ==> !(#[trigger] bdd_sat(self.bdd).contains(v))),
    {
        bdd_is_false(&self.bdd)
    }
}

/// The symbolic asynchronous view of a Boolean network: its admissible
/// parameter space, as a color set and as a colored vertex space.
pub struct SymbolicAsyncGraph {
    pub network: BooleanNetwork,
    pub symbolic_context: SymbolicContext,
    pub color_encoder: BddParameterEncoder,
    pub unit_bdd: Bdd,
    pub vertex_space: (GraphColoredVertices, GraphColoredVertices),
    pub color_space: (GraphColors, GraphColors),
}

impl SymbolicAsyncGraph {
    /// Consistency of all the symbolic spaces with the network's compiled
    /// static constraints.
    pub open spec fn wf(self) -> bool {
        &&& self.network.wf()
        &&& self.color_encoder.wf(self.network)
        &&& self.color_encoder.base == 0
        &&& self.symbolic_context.wf(self.network)
        &&& bdd_nvars(self.unit_bdd) == self.symbolic_context.encoder.num_bdd_vars
        &&& forall|v: Seq<bool>|
            v.len() == self.symbolic_context.encoder.num_bdd_vars ==> (#[trigger] bdd_sat(
                self.unit_bdd,
            ).contains(v) <==> static_constraints_sem(
                self.symbolic_context.encoder,
                self.network,
                v,
            ))
        &&& bdd_nvars(self.color_space.0.bdd) == self.color_encoder.num_bdd_vars
        &&& forall|v: Seq<bool>|
            v.len() == self.color_encoder.num_bdd_vars ==> !(#[trigger] bdd_sat(
                self.color_space.0.bdd,
            ).contains(v))
        &&& bdd_nvars(self.color_space.1.bdd) == self.color_encoder.num_bdd_vars
        &&& forall|v: Seq<bool>|
            v.len() == self.color_encoder.num_bdd_vars ==> (#[trigger] bdd_sat(
                self.color_space.1.bdd,
            ).contains(v) <==> static_constraints_sem(self.color_encoder, self.network, v))
        &&& bdd_nvars(self.vertex_space.0.bdd) == self.symbolic_context.encoder.num_bdd_vars
        &&& forall|v: Seq<bool>|
            v.len() == self.symbolic_context.encoder.num_bdd_vars ==> !(#[trigger] bdd_sat(
                self.vertex_space.0.bdd,
            ).contains(v))
        &&& bdd_nvars(self.vertex_space.1.bdd) == self.symbolic_context.encoder.num_bdd_vars
        &&& forall|v: Seq<bool>|
            v.len() == self.symbolic_context.encoder.num_bdd_vars ==> (#[trigger] bdd_sat(
                self.vertex_space.1.bdd,
            ).contains(v) <==> bdd_sat(self.unit_bdd).contains(v))
    }

    /// Build the symbolic view of `network`: compile its static constraints
    /// over the parameter space and over the full state-and-parameter space.
    /// Fails when the symbolic space does not fit a BDD variable set or when
    /// no parameter valuation satisfies the constraints.
    pub fn new(network: BooleanNetwork) -> (r: Result<SymbolicAsyncGraph, String>)
        requires
            network.wf(),
        ensures
            match r {
                Ok(g) => {
                    &&& g.network == network
                    &&& g.wf()
                    &&& exists|v: Seq<bool>|
                        v.len() == g.color_encoder.num_bdd_vars && #[trigger] bdd_sat(
                            g.color_space.1.bdd,
                        ).contains(v)
                },
                Err(_) => !layout_ok(network, 0) || !layout_ok(network, network.graph.num_vars as nat)
                    || network.graph.num_vars > 65533 || (exists|enc: BddParameterEncoder|
                    (#[trigger] enc.wf(network)) && enc.base == 0 && forall|v: Seq<bool>|
                        v.len() == enc.num_bdd_vars ==> !static_constraints_sem(enc, network, v)),
            },
    {
        let n = network.graph.num_vars;
        let color_encoder = match BddParameterEncoder::new(&network) {
            Ok(e) => e,
            Err(e) => {
                return Err(e);
            },
        };
        let symbolic_context = match SymbolicContext::new(&network) {
            Ok(c) => c,
            Err(e) => {
                return Err(e);
            },
        };
        let unit_colors_bdd = build_static_constraints(&network, &color_encoder);
        if bdd_is_false(&unit_colors_bdd) {
            proof {
                assert forall|v: Seq<bool>|
                    v.len() == color_encoder.num_bdd_vars implies !static_constraints_sem(
                    color_encoder,
                    network,
                    v,
                ) by {
                    assert(!bdd_sat(unit_colors_bdd).contains(v));
                }
                assert(color_encoder.wf(network));
            }
            return Err("the static constraints admit no parametrisation".to_string());
        }
        let unit_bdd = build_static_constraints(&network, &symbolic_context.encoder);
        let empty_vertices = GraphColoredVertices {
            bdd: mk_false(&symbolic_context.encoder.bdd_variables),
        };
        let unit_vertices = GraphColoredVertices { bdd: bdd_clone(&unit_bdd) };
        let empty_colors = GraphColors { bdd: mk_false(&color_encoder.bdd_variables) };
        let unit_colors = GraphColors { bdd: unit_colors_bdd };
        Ok(
            SymbolicAsyncGraph {
                network,
                symbolic_context,
                color_encoder,
                unit_bdd,
                vertex_space: (empty_vertices, unit_vertices),
                color_space: (empty_colors, unit_colors),
            },
        )
    }

    /// Return a reference to the original Boolean network.
    pub fn network(&self) -> (r: &BooleanNetwork)
        ensures
            r == &self.network,
    {
        &self.network
    }

    /// Return a reference to the symbolic context of this graph.
    pub fn symbolic_context(&self) -> (r: &SymbolicContext)
        ensures
            r == &self.symbolic_context,
    {
        &self.symbolic_context
    }

    /// Reference to an empty color set.
    pub fn empty_colors(&self) -> (r: &GraphColors)
        ensures
            r == &self.color_space.0,
    {
        &self.color_space.0
    }

    /// Make a new copy of the empty color set.
    pub fn mk_empty_colors(&self) -> (r: GraphColors)
        ensures
            bdd_nvars(r.bdd) == bdd_nvars(self.color_space.0.bdd),
            bdd_sat(r.bdd) == bdd_sat(self.color_space.0.bdd),
    {
        GraphColors { bdd: bdd_clone(&self.color_space.0.bdd) }
    }

    /// Reference to the unit (all admissible) color set.
    pub fn unit_colors(&self) -> (r: &GraphColors)
        ensures
            r == &self.color_space.1,
    {
        &self.color_space.1
    }

    /// Make a new copy of the unit color set.
    pub fn mk_unit_colors(&self) -> (r: GraphColors)
        ensures
            bdd_nvars(r.bdd) == bdd_nvars(self.color_space.1.bdd),
            bdd_sat(r.bdd) == bdd_sat(self.color_space.1.bdd),
    {
        GraphColors { bdd: bdd_clone(&self.color_space.1.bdd) }
    }

    /// Reference to an empty colored vertex set.
    pub fn empty_vertices(&self) -> (r: &GraphColoredVertices)
        ensures
            r == &self.vertex_space.0,
    {
        &self.vertex_space.0
    }

    /// Make a new copy of the empty colored vertex set.
    pub fn mk_empty_vertices(&self) -> (r: GraphColoredVertices)
        ensures
            bdd_nvars(r.bdd) == bdd_nvars(self.vertex_space.0.bdd),
            bdd_sat(r.bdd) == bdd_sat(self.vertex_space.0.bdd),
    {
        GraphColoredVertices { bdd: bdd_clone(&self.vertex_space.0.bdd) }
    }

    /// Reference to the unit colored vertex set.
    pub fn unit_vertices(&self) -> (r: &GraphColoredVertices)
        ensures
            r == &self.vertex_space.1,
    {
        &self.vertex_space.1
    }

    /// Make a new copy of the unit colored vertex set.
    pub fn mk_unit_vertices(&self) -> (r: GraphColoredVertices)
        ensures
            bdd_nvars(r.bdd) == bdd_nvars(self.vertex_space.1.bdd),
            bdd_sat(r.bdd) == bdd_sat(self.vertex_space.1.bdd),
    {
        GraphColoredVertices { bdd: bdd_clone(&self.vertex_space.1.bdd) }
    }

    /// Colored vertex set in which the given network variable has the given
    /// fixed value.
    pub fn fix_network_variable(&self, variable: VariableId, value: bool) -> (r:
        GraphColoredVertices)
        requires
            self.wf(),
            variable.0 < self.network.graph.num_vars,
        ensures
            bdd_nvars(r.bdd) == self.symbolic_context.encoder.num_bdd_vars,
            forall|v: Seq<bool>|
                v.len() == self.symbolic_context.encoder.num_bdd_vars ==> (#[trigger] bdd_sat(
                    r.bdd,
                ).contains(v) <==> (bdd_sat(self.unit_bdd).contains(v) && v[variable.0 as int]
                    == value)),
    {
        let bdd_variable = self.symbolic_context.state_variables[variable.0];
        GraphColoredVertices { bdd: bdd_var_select(&self.unit_bdd, bdd_variable, value) }
    }

    /// Colored vertex set that contains exactly one vertex, with all its
    /// admissible colors.
    pub fn vertex(&self, state: &Vec<bool>) -> (r: GraphColoredVertices)
        requires
            self.wf(),
            state@.len() == self.network.graph.num_vars,
        ensures
            bdd_nvars(r.bdd) == self.symbolic_context.encoder.num_bdd_vars,
            forall|v: Seq<bool>|
                v.len() == self.symbolic_context.encoder.num_bdd_vars ==> (#[trigger] bdd_sat(
                    r.bdd,
                ).contains(v) <==> (bdd_sat(self.unit_bdd).contains(v) && forall|j: int|
                    0 <= j < state@.len() ==> v[j] == state@[j])),
    {
        let n = self.network.graph.num_vars();
        let mut pairs: Vec<(u16, bool)> = Vec::new();
        let mut j: usize = 0;
        while j < n
            invariant
                self.wf(),
                n == self.network.graph.num_vars,
                state@.len() == n,
                j <= n,
                pairs@.len() == j,
                forall|q: int|
                    0 <= q < j ==> (#[trigger] pairs@[q]).0 as int == q && pairs@[q].1
                        == state@[q],
            decreases n - j,
        {
            pairs.push((j as u16, state[j]));
            j = j + 1;
        }
        let selected = bdd_select(&self.unit_bdd, &pairs);
        proof {
            assert forall|v: Seq<bool>|
                v.len() == self.symbolic_context.encoder.num_bdd_vars implies ((bdd_sat(
                selected,
            ).contains(v) && true) <==> (bdd_sat(self.unit_bdd).contains(v) && forall|q: int|
                0 <= q < state@.len() ==> v[q] == state@[q])) by {
                if bdd_sat(self.unit_bdd).contains(v) {
                    if forall|q: int|
                        0 <= q < pairs@.len() ==> v[(#[trigger] pairs@[q]).0 as int]
                            == pairs@[q].1 {
                        assert forall|q: int| 0 <= q < state@.len() implies v[q] == state@[q] by {
                            assert(v[(pairs@[q]).0 as int] == pairs@[q].1);
                        }
                    }
                    if forall|q: int| 0 <= q < state@.len() ==> v[q] == state@[q] {
                        assert forall|q: int|
                            0 <= q < pairs@.len() implies v[(#[trigger] pairs@[q]).0 as int]
                            == pairs@[q].1 by {
                            assert(v[q] == state@[q]);
                        }
                    }
                }
            }
        }
        GraphColoredVertices { bdd: selected }
    }
}


/// Build a parameter-free expression that computes, for every network state,
/// the table value stored in `w` at `off + stride * row`, where `row` is the
/// input row encoded by the state over `args[pos..]`.
fn build_table_expr(
    w: &Vec<bool>,
    off: usize,
    stride: usize,
    args: &Vec<VariableId>,
    pos: usize,
    Ghost(nb): Ghost<nat>,
) -> (r: FnUpdate)
    requires
        pos <= args@.len(),
        args@.len() - pos <= 16,
        stride >= 1,
        stride * pow2((args@.len() - pos) as nat) <= 131072,
        forall|row: nat|
            row < pow2((args@.len() - pos) as nat) ==> off + #[trigger] (stride * row)
                < w@.len(),
        forall|j: int| pos <= j < args@.len() ==> (#[trigger] args@[j]).0 < nb,
    ensures
        fn_update_no_params(r),
        fn_update_wf(r, nb, Seq::<crate::network::Parameter>::empty()),
        forall|enc: BddParameterEncoder, state: Seq<bool>, v: Seq<bool>|
            state.len() == nb ==> #[trigger] sem_eval(enc, r, state, v) == w@[off + stride
                * row_from_state(state, args@.skip(pos as int))],
    decreases args@.len() - pos,
{
    let wl = w.len();
    let m = args.len();
    if pos == m {
        proof {
            assert(off + stride * 0 < w@.len());
            assert forall|enc: BddParameterEncoder, state: Seq<bool>, v: Seq<bool>|
                state.len() == nb implies #[trigger] sem_eval(
                enc,
                FnUpdate::Const(w@[off as int]),
                state,
                v,
            ) == w@[off + stride * row_from_state(state, args@.skip(pos as int))] by {
                assert(args@.skip(pos as int).len() == 0);
                assert(row_from_state(state, args@.skip(pos as int)) == 0);
                assert(stride * 0 == 0) by (nonlinear_arith);
            }
        }
        FnUpdate::Const(w[off])
    } else {
        let ghost rem = (args@.len() - pos) as nat;
        proof {
            assert(pow2(rem) == 2 * pow2((rem - 1) as nat));
            assert forall|row: nat|
                row < pow2((args@.len() - (pos + 1)) as nat) implies off + #[trigger] ((stride
                * 2) * row) < w@.len() by {
                assert(2 * row < pow2(rem)) by {
                    assert(row < pow2((rem - 1) as nat));
                };
                assert((stride * 2) * row == stride * (2 * row)) by (nonlinear_arith);
                assert(off + stride * (2 * row) < w@.len());
            }
            assert(pow2(0) == 1);
            assert(pow2(1) == 2);
            assert(1 < pow2(rem)) by {
                lemma_pow2_monotone(1, rem);
            };
            assert((stride * 2) * pow2((rem - 1) as nat) == stride * pow2(rem))
                by (nonlinear_arith)
                requires pow2(rem) == 2 * pow2((rem - 1) as nat),
            ;
            assert(stride * 2 <= stride * pow2(rem)) by (nonlinear_arith)
                requires 2 <= pow2(rem), stride >= 1,
            ;
            assert(off + stride * (1nat) < w@.len());
            assert(stride * (1nat) == stride) by (nonlinear_arith);
            assert(off + stride < w@.len());
            assert forall|row: nat|
                row < pow2((args@.len() - (pos + 1)) as nat) implies (off + stride) + #[trigger] (
                (stride * 2) * row) < w@.len() by {
                assert(2 * row + 1 < pow2(rem)) by {
                    assert(row < pow2((rem - 1) as nat));
                };
                assert((off + stride) + (stride * 2) * row == off + stride * (2 * row + 1))
                    by (nonlinear_arith);
                assert(off + stride * (2 * row + 1) < w@.len());
            }
        }
        let rest0 = build_table_expr(w, off, stride * 2, args, pos + 1, Ghost(nb));
        let rest1 = build_table_expr(w, off + stride, stride * 2, args, pos + 1, Ghost(nb));
        let ghost grest0 = rest0;
        let ghost grest1 = rest1;
        let a = args[pos];
        let left = FnUpdate::Binary(
            BinaryOp::And,
            Box::new(FnUpdate::Var(a)),
            Box::new(rest1),
        );
        let right = FnUpdate::Binary(
            BinaryOp::And,
            Box::new(FnUpdate::Not(Box::new(FnUpdate::Var(a)))),
            Box::new(rest0),
        );
        let ghost gleft = left;
        let ghost gright = right;
        let r = FnUpdate::Binary(BinaryOp::Or, Box::new(left), Box::new(right));
        proof {
            reveal_with_fuel(fn_update_no_params, 5);
            reveal_with_fuel(fn_update_wf, 5);
            assert(fn_update_no_params(r));
            assert(fn_update_wf(r, nb, Seq::<crate::network::Parameter>::empty()));
            assert forall|enc: BddParameterEncoder, state: Seq<bool>, v: Seq<bool>|
                state.len() == nb implies #[trigger] sem_eval(enc, r, state, v) == w@[off
                + stride * row_from_state(state, args@.skip(pos as int))] by {
                reveal_with_fuel(sem_eval, 5);
                let suffix = args@.skip(pos as int);
                assert(suffix[0] == args@[pos as int]);
                assert(suffix.skip(1) =~= args@.skip(pos as int + 1));
                let r2 = row_from_state(state, args@.skip(pos as int + 1));
                let b: nat = if state[a.0 as int] {
                    1nat
                } else {
                    0nat
                };
                assert(row_from_state(state, suffix) == b + 2 * r2);
                assert(sem_eval(enc, grest1, state, v) == w@[(off + stride) + (stride * 2)
                    * r2]);
                assert(sem_eval(enc, grest0, state, v) == w@[off + (stride * 2) * r2]);
                assert((off + stride) + (stride * 2) * r2 == off + stride * (1 + 2 * r2))
                    by (nonlinear_arith);
                assert(off + (stride * 2) * r2 == off + stride * (0 + 2 * r2))
                    by (nonlinear_arith);
                assert(sem_eval(enc, r, state, v) == (sem_eval(enc, gleft, state, v)
                    || sem_eval(enc, gright, state, v)));
                assert(sem_eval(enc, gleft, state, v) == (state[a.0 as int] && sem_eval(
                    enc,
                    grest1,
                    state,
                    v,
                )));
                assert(sem_eval(enc, gright, state, v) == (!state[a.0 as int] && sem_eval(
                    enc,
                    grest0,
                    state,
                    v,
                )));
            }
        }
        r
    }
}


/// Replace every parameter call of an update expression by the concrete
/// truth table that the witness valuation assigns to it.
fn instantiate_fn_update(
    enc: &BddParameterEncoder,
    f: &FnUpdate,
    w: &Vec<bool>,
    Ghost(bn): Ghost<BooleanNetwork>,
) -> (r: FnUpdate)
    requires
        bn.wf(),
        enc.wf(bn),
        fn_update_wf(*f, bn.graph.num_vars as nat, bn.parameters@),
        w@.len() == enc.num_bdd_vars,
    ensures
        fn_update_no_params(r),
        fn_update_wf(r, bn.graph.num_vars as nat, Seq::<crate::network::Parameter>::empty()),
        forall|enc2: BddParameterEncoder, state: Seq<bool>, v: Seq<bool>|
            state.len() == bn.graph.num_vars ==> #[trigger] sem_eval(enc2, r, state, v)
                == sem_eval(*enc, *f, state, w@),
    decreases *f,
{
    match f {
        FnUpdate::Const(b) => {
            let r = FnUpdate::Const(*b);
            proof {
                assert forall|enc2: BddParameterEncoder, state: Seq<bool>, v: Seq<bool>|
                    state.len() == bn.graph.num_vars implies #[trigger] sem_eval(
                    enc2,
                    r,
                    state,
                    v,
                ) == sem_eval(*enc, *f, state, w@) by {
                    assert(sem_eval(enc2, r, state, v) == *b);
                    assert(sem_eval(*enc, *f, state, w@) == *b);
                }
            }
            r
        },
        FnUpdate::Var(x) => {
            let r = FnUpdate::Var(*x);
            proof {
                assert forall|enc2: BddParameterEncoder, state: Seq<bool>, v: Seq<bool>|
                    state.len() == bn.graph.num_vars implies #[trigger] sem_eval(
                    enc2,
                    r,
                    state,
                    v,
                ) == sem_eval(*enc, *f, state, w@) by {
                    assert(sem_eval(enc2, r, state, v) == state[x.0 as int]);
                    assert(sem_eval(*enc, *f, state, w@) == state[x.0 as int]);
                }
            }
            r
        },
        FnUpdate::Not(g) => {
            let inner = instantiate_fn_update(enc, g, w, Ghost(bn));
            let ghost ginner = inner;
            let r = FnUpdate::Not(Box::new(inner));
            proof {
                assert forall|enc2: BddParameterEncoder, state: Seq<bool>, v: Seq<bool>|
                    state.len() == bn.graph.num_vars implies #[trigger] sem_eval(
                    enc2,
                    r,
                    state,
                    v,
                ) == sem_eval(*enc, *f, state, w@) by {
                    assert(sem_eval(enc2, r, state, v) == !sem_eval(enc2, ginner, state, v));
                    assert(sem_eval(*enc, *f, state, w@) == !sem_eval(*enc, **g, state, w@));
                }
            }
            r
        },
        FnUpdate::Binary(op, l, r2) => {
            let left = instantiate_fn_update(enc, l, w, Ghost(bn));
            let right = instantiate_fn_update(enc, r2, w, Ghost(bn));
            let ghost gl = left;
            let ghost gr = right;
            let r = FnUpdate::Binary(*op, Box::new(left), Box::new(right));
            proof {
                assert forall|enc2: BddParameterEncoder, state: Seq<bool>, v: Seq<bool>|
                    state.len() == bn.graph.num_vars implies #[trigger] sem_eval(
                    enc2,
                    r,
                    state,
                    v,
                ) == sem_eval(*enc, *f, state, w@) by {
                    assert(sem_eval(enc2, r, state, v) == crate::encoder::apply_binop(
                        *op,
                        sem_eval(enc2, gl, state, v),
                        sem_eval(enc2, gr, state, v),
                    ));
                    assert(sem_eval(*enc, *f, state, w@) == crate::encoder::apply_binop(
                        *op,
                        sem_eval(*enc, **l, state, w@),
                        sem_eval(*enc, **r2, state, w@),
                    ));
                }
            }
            r
        },
        FnUpdate::Param(p, args) => {
            proof {
                lemma_pow2_16();
                lemma_pow2_monotone(args@.len(), 16);
                assert forall|row: nat|
                    row < pow2(args@.len()) implies enc.param_offsets@[p.0 as int]
                    + #[trigger] (1 * row) < w@.len() by {
                    assert(1 * row == row) by (nonlinear_arith);
                }
            }
            let off = enc.param_offsets[p.0];
            let r = build_table_expr(w, off, 1, args, 0, Ghost(bn.graph.num_vars as nat));
            proof {
                assert(args@.skip(0) =~= args@);
                assert forall|enc2: BddParameterEncoder, state: Seq<bool>, v: Seq<bool>|
                    state.len() == bn.graph.num_vars implies #[trigger] sem_eval(
                    enc2,
                    r,
                    state,
                    v,
                ) == sem_eval(*enc, *f, state, w@) by {
                    let row = row_from_state(state, args@);
                    assert(sem_eval(enc2, r, state, v) == w@[off + 1 * row]);
                    assert(1 * row == row) by (nonlinear_arith);
                }
            }
            r
        },
    }
}

/// Duplicate a regulatory graph value.
fn copy_graph(g: &RegulatoryGraph) -> (r: RegulatoryGraph)
    ensures
        r.num_vars == g.num_vars,
        r.regulations@ == g.regulations@,
{
    let mut regulations: Vec<crate::network::Regulation> = Vec::new();
    let m = g.regulations.len();
    let mut i: usize = 0;
    while i < m
        invariant
            m == g.regulations@.len(),
            i <= m,
            regulations@ == g.regulations@.take(i as int),
        decreases m - i,
    {
        regulations.push(g.regulations[i]);
        proof {
            assert(regulations@ =~= g.regulations@.take(i as int + 1));
        }
        i = i + 1;
    }
    proof {
        assert(g.regulations@.take(m as int) =~= g.regulations@);
    }
    RegulatoryGraph { num_vars: g.num_vars, regulations }
}

/// `res` is a fully concrete network that agrees, on every state, with the
/// update functions that the parameter valuation `wit` induces on `bn`.
pub open spec fn is_witness_network(
    enc: BddParameterEncoder,
    bn: BooleanNetwork,
    wit: Seq<bool>,
    res: BooleanNetwork,
) -> bool {
    &&& res.graph.num_vars == bn.graph.num_vars
    &&& res.graph.regulations@ == bn.graph.regulations@
    &&& res.parameters@.len() == 0
    &&& res.update_functions@.len() == bn.graph.num_vars
    &&& forall|t: int|
        0 <= t < bn.graph.num_vars ==> (#[trigger] res.update_functions@[t]) is Some
            && fn_update_no_params(res.update_functions@[t].unwrap())
    &&& forall|t: int, state: Seq<bool>, v: Seq<bool>|
        0 <= t < bn.graph.num_vars && state.len() == bn.graph.num_vars ==> #[trigger] sem_eval(
            enc,
            res.update_functions@[t].unwrap(),
            state,
            v,
        ) == sem_fn_of(enc, bn, t, state, wit)
}

impl SymbolicAsyncGraph {
    /// Make a witness network for one color in the given non-empty set: a
    /// fully concrete network whose update functions agree with those the
    /// chosen parameter valuation induces.
    pub fn pick_witness(&self, colors: &GraphColors) -> (r: BooleanNetwork)
        requires
            self.wf(),
            bdd_nvars(colors.bdd) == self.color_encoder.num_bdd_vars,
            exists|v: Seq<bool>|
                v.len() == self.color_encoder.num_bdd_vars && #[trigger] bdd_sat(
                    colors.bdd,
                ).contains(v),
        ensures
            r.wf(),
            exists|wit: Seq<bool>|
                wit.len() == self.color_encoder.num_bdd_vars && #[trigger] bdd_sat(
                    colors.bdd,
                ).contains(wit) && is_witness_network(self.color_encoder, self.network, wit, r),
    {
        let w = match bdd_sat_witness(&colors.bdd) {
            Some(w) => w,
            None => {
                proof {
                    let v = choose|v: Seq<bool>|
                        v.len() == self.color_encoder.num_bdd_vars && #[trigger] bdd_sat(
                            colors.bdd,
                        ).contains(v);
                    assert(false);
                }
                unreached()
            },
        };
        let n = self.network.graph.num_vars;
        let mut update_functions: Vec<Option<FnUpdate>> = Vec::new();
        let mut t: usize = 0;
        while t < n
            invariant
                self.wf(),
                n == self.network.graph.num_vars,
                w@.len() == self.color_encoder.num_bdd_vars,
                t <= n,
                update_functions@.len() == t,
                forall|q: int|
                    0 <= q < t ==> (#[trigger] update_functions@[q]) is Some
                        && fn_update_no_params(update_functions@[q].unwrap()) && fn_update_wf(
                        update_functions@[q].unwrap(),
                        n as nat,
                        Seq::<crate::network::Parameter>::empty(),
                    ),
                forall|q: int, state: Seq<bool>, v: Seq<bool>|
                    0 <= q < t && state.len() == n ==> #[trigger] sem_eval(
                        self.color_encoder,
                        update_functions@[q].unwrap(),
                        state,
                        v,
                    ) == sem_fn_of(self.color_encoder, self.network, q, state, w@),
            decreases n - t,
        {
            let expr = match &self.network.update_functions[t] {
                Some(f) => instantiate_fn_update(&self.color_encoder, f, &w, Ghost(self.network)),
                None => {
                    proof {
                        lemma_pow2_16();
                        lemma_pow2_monotone(
                            self.color_encoder.regulators@[t as int]@.len(),
                            16,
                        );
                        lemma_regs_below_props(self.network.graph, t as int, n as nat);
                        assert(self.color_encoder.regulators@[t as int]@
                            == crate::network::spec_regulators(self.network.graph, t as int));
                        assert forall|row: nat|
                            row < pow2(self.color_encoder.regulators@[t as int]@.len())
                            implies self.color_encoder.implicit_offsets@[t as int] + #[trigger] (
                        1 * row) < w@.len() by {
                            assert(1 * row == row) by (nonlinear_arith);
                        }
                    }
                    let off = self.color_encoder.implicit_offsets[t];
                    let row = &self.color_encoder.regulators[t];
                    let e = build_table_expr(&w, off, 1, row, 0, Ghost(n as nat));
                    proof {
                        assert(self.color_encoder.regulators@[t as int]@.skip(0)
                            =~= self.color_encoder.regulators@[t as int]@);
                        assert forall|state: Seq<bool>, v: Seq<bool>|
                            state.len() == n implies #[trigger] sem_eval(
                            self.color_encoder,
                            e,
                            state,
                            v,
                        ) == sem_fn_of(self.color_encoder, self.network, t as int, state, w@) by {
                            let rr = row_from_state(
                                state,
                                self.color_encoder.regulators@[t as int]@,
                            );
                            assert(sem_eval(self.color_encoder, e, state, v) == w@[off + 1 * rr]);
                            assert(1 * rr == rr) by (nonlinear_arith);
                        }
                    }
                    e
                },
            };
            update_functions.push(Some(expr));
            t = t + 1;
        }
        let graph = copy_graph(&self.network.graph);
        let res = BooleanNetwork { graph, parameters: Vec::new(), update_functions };
        proof {
            assert(res.parameters@ =~= Seq::<crate::network::Parameter>::empty());
            assert(res.wf());
            assert(is_witness_network(self.color_encoder, self.network, w@, res));
        }
        res
    }
}

} // verus!
