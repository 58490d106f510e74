use bn_static_analysis::async_graph::SymbolicAsyncGraph;
use bn_static_analysis::network::{BooleanNetwork, FnUpdate, Monotonicity, RegulatoryGraph, VariableId};

/// Network `a (-> | -| | -?) t` with `$a: true` and an implicit function for `t`.
fn one_regulation_network(
    monotonicity: Option<Monotonicity>,
    observable: bool,
) -> BooleanNetwork {
    let mut rg = RegulatoryGraph::new(2);
    rg.add_regulation(VariableId(0), VariableId(1), observable, monotonicity)
        .unwrap();
    let mut bn = BooleanNetwork::new(rg);
    bn.set_update_function(VariableId(0), FnUpdate::Const(true))
        .unwrap();
    bn
}

#[test]
fn test_constraints_1() {
    let network = one_regulation_network(Some(Monotonicity::Activation), true);
    let graph = SymbolicAsyncGraph::new(network).unwrap();
    assert_eq!(1.0, graph.unit_colors().as_bdd().cardinality());
    let network = one_regulation_network(Some(Monotonicity::Inhibition), true);
    let graph = SymbolicAsyncGraph::new(network).unwrap();
    assert_eq!(1.0, graph.unit_colors().as_bdd().cardinality());
    let network = one_regulation_network(Some(Monotonicity::Activation), false);
    let graph = SymbolicAsyncGraph::new(network).unwrap();
    assert_eq!(3.0, graph.unit_colors().as_bdd().cardinality());
    let network = one_regulation_network(Some(Monotonicity::Inhibition), false);
    let graph = SymbolicAsyncGraph::new(network).unwrap();
    assert_eq!(3.0, graph.unit_colors().as_bdd().cardinality());
    let network = one_regulation_network(None, true);
    let graph = SymbolicAsyncGraph::new(network).unwrap();
    assert_eq!(2.0, graph.unit_colors().as_bdd().cardinality());
    let network = one_regulation_network(None, false);
    let graph = SymbolicAsyncGraph::new(network).unwrap();
    assert_eq!(4.0, graph.unit_colors().as_bdd().cardinality());
}

/// Network with regulations of `t` as given and `$x: true` for every other
/// variable; `t` keeps an implicit update function.
fn regulators_of_t(specs: &[(Option<Monotonicity>, bool)]) -> BooleanNetwork {
    let n = specs.len();
    let mut rg = RegulatoryGraph::new(n + 1);
    for (i, (m, o)) in specs.iter().enumerate() {
        rg.add_regulation(VariableId(i), VariableId(n), *o, *m).unwrap();
    }
    let mut bn = BooleanNetwork::new(rg);
    for i in 0..n {
        bn.set_update_function(VariableId(i), FnUpdate::Const(true))
            .unwrap();
    }
    bn
}

#[test]
fn test_constraints_2() {
    /*        a&!b a  a|!b
       a b | f_1 f_2 f_3
       0 0 |  0   0   1
       0 1 |  0   0   0
       1 0 |  1   1   1
       1 1 |  0   1   1
    */
    let network = regulators_of_t(&[
        (Some(Monotonicity::Activation), true),
        (Some(Monotonicity::Inhibition), false),
    ]);
    let graph = SymbolicAsyncGraph::new(network).unwrap();
    assert_eq!(3.0, graph.unit_colors().as_bdd().cardinality());
}

/* For a monotonous function, the cardinality should follow dedekind numbers... */

#[test]
fn test_monotonicity_2() {
    let network = regulators_of_t(&[
        (Some(Monotonicity::Activation), false),
        (Some(Monotonicity::Inhibition), false),
    ]);
    let graph = SymbolicAsyncGraph::new(network).unwrap();
    assert_eq!(6.0, graph.unit_colors().as_bdd().cardinality());
}

#[test]
fn test_monotonicity_3() {
    let network = regulators_of_t(&[
        (Some(Monotonicity::Activation), false),
        (Some(Monotonicity::Inhibition), false),
        (Some(Monotonicity::Activation), false),
    ]);
    let graph = SymbolicAsyncGraph::new(network).unwrap();
    assert_eq!(20.0, graph.unit_colors().as_bdd().cardinality());
}

#[test]
fn test_monotonicity_4() {
    let network = regulators_of_t(&[
        (Some(Monotonicity::Activation), false),
        (Some(Monotonicity::Inhibition), false),
        (Some(Monotonicity::Activation), false),
        (Some(Monotonicity::Inhibition), false),
    ]);
    let graph = SymbolicAsyncGraph::new(network).unwrap();
    assert_eq!(168.0, graph.unit_colors().as_bdd().cardinality());
}

#[test]
fn test_invalid_function() {
    // a -> t and b -| t are declared, but $t: b ignores a, so the
    // observability of a is unsatisfiable.
    let mut rg = RegulatoryGraph::new(3);
    rg.add_regulation(VariableId(0), VariableId(2), true, Some(Monotonicity::Activation))
        .unwrap();
    rg.add_regulation(VariableId(1), VariableId(2), true, Some(Monotonicity::Inhibition))
        .unwrap();
    let mut bn = BooleanNetwork::new(rg);
    bn.set_update_function(VariableId(0), FnUpdate::Const(true)).unwrap();
    bn.set_update_function(VariableId(1), FnUpdate::Const(true)).unwrap();
    bn.set_update_function(VariableId(2), FnUpdate::Var(VariableId(1))).unwrap();
    let graph = SymbolicAsyncGraph::new(bn);
    assert!(graph.is_err());
}
