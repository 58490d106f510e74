use bn_static_analysis::network::{
    BooleanNetwork, FnUpdate, Monotonicity, Regulation, RegulatoryGraph, Sign, VariableId,
};
use bn_static_analysis::async_graph::SymbolicAsyncGraph;
use bn_static_analysis::constraints::InputStatesPairIterator;

#[test]
fn sign_addition_follows_the_parity_group() {
    assert_eq!(Sign::Positive.add(Sign::Positive), Sign::Positive);
    assert_eq!(Sign::Negative.add(Sign::Negative), Sign::Positive);
    assert_eq!(Sign::Positive.add(Sign::Negative), Sign::Negative);
    assert_eq!(Sign::Negative.add(Sign::Positive), Sign::Negative);
}

#[test]
fn single_positive_self_loop() {
    // network `a -> a`
    let mut rg = RegulatoryGraph::new(1);
    rg.add_regulation(VariableId(0), VariableId(0), true, Some(Monotonicity::Activation))
        .unwrap();
    let cycle = rg.shortest_cycle(VariableId(0)).unwrap();
    assert_eq!(cycle.len(), 1);
    assert_eq!(cycle[0], VariableId(0));
    let fvs = rg.feedback_vertex_set();
    assert!(fvs.contains(VariableId(0)));
    assert_eq!(fvs.count(), 1);
}

#[test]
fn three_cycle_with_one_inhibition() {
    // a -+> b, b -+> c, c --| a
    let mut rg = RegulatoryGraph::new(3);
    rg.add_regulation(VariableId(0), VariableId(1), true, Some(Monotonicity::Activation))
        .unwrap();
    rg.add_regulation(VariableId(1), VariableId(2), true, Some(Monotonicity::Activation))
        .unwrap();
    rg.add_regulation(VariableId(2), VariableId(0), true, Some(Monotonicity::Inhibition))
        .unwrap();
    let cycle = rg.shortest_cycle(VariableId(0)).unwrap();
    assert_eq!(cycle.len(), 3);
    assert_eq!(cycle[0], VariableId(0));
    let fvs = rg.feedback_vertex_set();
    assert_eq!(fvs.count(), 1);
    let cycles = rg.independent_cycles();
    assert_eq!(cycles.len(), 1);
    assert_eq!(cycles[0].len(), 3);
}

#[test]
fn disjoint_cycles() {
    // {a <-> b} and {c <-> d}, each pair mutually activating
    let mut rg = RegulatoryGraph::new(4);
    rg.add_regulation(VariableId(0), VariableId(1), true, Some(Monotonicity::Activation))
        .unwrap();
    rg.add_regulation(VariableId(1), VariableId(0), true, Some(Monotonicity::Activation))
        .unwrap();
    rg.add_regulation(VariableId(2), VariableId(3), true, Some(Monotonicity::Activation))
        .unwrap();
    rg.add_regulation(VariableId(3), VariableId(2), true, Some(Monotonicity::Activation))
        .unwrap();
    let fvs = rg.feedback_vertex_set();
    assert_eq!(fvs.count(), 2);
    let cycle = rg.shortest_cycle(VariableId(2)).unwrap();
    assert_eq!(cycle.len(), 2);
    let cycles = rg.independent_cycles();
    assert_eq!(cycles.len(), 2);
}

#[test]
fn disjoint_cycles_give_two_components() {
    // {a <-> b} and {c <-> d}: two strongly connected components of size 2
    let mut rg = RegulatoryGraph::new(4);
    rg.add_regulation(VariableId(0), VariableId(1), true, Some(Monotonicity::Activation))
        .unwrap();
    rg.add_regulation(VariableId(1), VariableId(0), true, Some(Monotonicity::Activation))
        .unwrap();
    rg.add_regulation(VariableId(2), VariableId(3), true, Some(Monotonicity::Activation))
        .unwrap();
    rg.add_regulation(VariableId(3), VariableId(2), true, Some(Monotonicity::Activation))
        .unwrap();
    let comps = rg.strongly_connected_components();
    assert_eq!(comps.len(), 2);
    assert_eq!(comps[0].count(), 2);
    assert_eq!(comps[1].count(), 2);
}

#[test]
fn single_vertex_component_needs_a_self_loop() {
    // a -> a and a -> b: only {a} is a (self-loop) component; b is trivial
    let mut rg = RegulatoryGraph::new(2);
    rg.add_regulation(VariableId(0), VariableId(0), true, Some(Monotonicity::Activation))
        .unwrap();
    rg.add_regulation(VariableId(0), VariableId(1), true, Some(Monotonicity::Activation))
        .unwrap();
    let comps = rg.strongly_connected_components();
    assert_eq!(comps.len(), 1);
    assert_eq!(comps[0].count(), 1);
    assert!(comps[0].contains(VariableId(0)));
}

#[test]
fn reachability_through_a_chain() {
    // a -> b -> c, and d isolated
    let mut rg = RegulatoryGraph::new(4);
    rg.add_regulation(VariableId(0), VariableId(1), true, Some(Monotonicity::Activation))
        .unwrap();
    rg.add_regulation(VariableId(1), VariableId(2), true, Some(Monotonicity::Activation))
        .unwrap();
    let fwd = rg.transitive_targets(VariableId(0));
    assert!(fwd.contains(VariableId(0)));
    assert!(fwd.contains(VariableId(1)));
    assert!(fwd.contains(VariableId(2)));
    assert!(!fwd.contains(VariableId(3)));
    let bwd = rg.transitive_regulators(VariableId(2));
    assert!(bwd.contains(VariableId(0)));
    assert!(bwd.contains(VariableId(1)));
    assert!(bwd.contains(VariableId(2)));
    assert!(!bwd.contains(VariableId(3)));
}

#[test]
fn acyclic_graph_has_no_cycle_and_empty_fvs() {
    let mut rg = RegulatoryGraph::new(2);
    rg.add_regulation(VariableId(0), VariableId(1), true, Some(Monotonicity::Activation))
        .unwrap();
    assert!(rg.shortest_cycle(VariableId(0)).is_none());
    assert_eq!(rg.feedback_vertex_set().count(), 0);
}

#[test]
fn explicit_activation_constraint() {
    // single regulation `a -> t` with `$t: a`: exactly one admissible
    // parametrisation; with `$t: !a` monotonicity fails and none remains.
    let mut rg = RegulatoryGraph::new(2);
    rg.add_regulation(VariableId(0), VariableId(1), true, Some(Monotonicity::Activation))
        .unwrap();
    let mut bn = BooleanNetwork::new(rg);
    bn.set_update_function(VariableId(0), FnUpdate::Const(true)).unwrap();
    bn.set_update_function(VariableId(1), FnUpdate::Var(VariableId(0))).unwrap();
    let graph = SymbolicAsyncGraph::new(bn).unwrap();
    assert_eq!(1.0, graph.unit_colors().as_bdd().cardinality());

    let mut rg = RegulatoryGraph::new(2);
    rg.add_regulation(VariableId(0), VariableId(1), true, Some(Monotonicity::Activation))
        .unwrap();
    let mut bn = BooleanNetwork::new(rg);
    bn.set_update_function(VariableId(0), FnUpdate::Const(true)).unwrap();
    bn.set_update_function(
        VariableId(1),
        FnUpdate::Not(Box::new(FnUpdate::Var(VariableId(0)))),
    )
    .unwrap();
    assert!(SymbolicAsyncGraph::new(bn).is_err());
}

#[test]
fn pick_witness_returns_a_concrete_network() {
    let mut rg = RegulatoryGraph::new(2);
    rg.add_regulation(VariableId(0), VariableId(1), true, Some(Monotonicity::Activation))
        .unwrap();
    let mut bn = BooleanNetwork::new(rg);
    bn.set_update_function(VariableId(0), FnUpdate::Const(true)).unwrap();
    let graph = SymbolicAsyncGraph::new(bn).unwrap();
    let witness = graph.pick_witness(graph.unit_colors());
    assert_eq!(witness.num_vars(), 2);
    for v in 0..2 {
        assert!(witness.update_functions[v].is_some());
    }
}

#[test]
fn input_pair_iterator_enumerates_off_rows() {
    let mut rg = RegulatoryGraph::new(3);
    rg.add_regulation(VariableId(0), VariableId(2), true, Some(Monotonicity::Activation))
        .unwrap();
    rg.add_regulation(VariableId(1), VariableId(2), true, Some(Monotonicity::Activation))
        .unwrap();
    let bn = BooleanNetwork::new(rg);
    let regulation = Regulation {
        regulator: VariableId(0),
        target: VariableId(2),
        observable: true,
        monotonicity: Some(Monotonicity::Activation),
    };
    let mut it = InputStatesPairIterator::new(&bn, &regulation);
    let mut count = 0;
    while let Some((off, on)) = it.next() {
        assert_eq!(off.len(), 3);
        assert!(!off[0]);
        assert!(on[0]);
        assert_eq!(off[1], on[1]);
        count += 1;
    }
    // two regulators give four rows, two of which have the regulator off
    assert_eq!(count, 2);
}
