//! Structural queries on a regulatory graph, answered over its signed
//! directed graph.

use vstd::prelude::*;
use crate::network::RegulatoryGraph;
use crate::network::VariableId;
use crate::reach::reaches_from;
use crate::reach::reaches_to;
use crate::sd_graph::SdGraph;
use crate::sd_graph::ids_of;
use crate::sd_graph::is_cycle;
use crate::sd_graph::rg_edge;
use crate::scc::comp_contains_cycle;
use crate::scc::lemma_component_ok_transfer;
use crate::scc::scc_component_ok;
use crate::scc::scc_nontrivial;
use crate::vset::VertexSet;

verus! {

impl RegulatoryGraph {
    /// The variables that transitively regulate `target`: everything that
    /// reaches `target` in the regulation graph.
    pub fn transitive_regulators(&self, target: VariableId) -> (r: VertexSet)
        requires
            self.wf(),
            target.0 < self.num_vars,
        ensures
            r.n() == self.num_vars,
            forall|v: int|
                #[trigger] r.has(v) <==> exists|g: SdGraph, all: VertexSet, seed: VertexSet|
                    sd_graph_of(*self, g) && full_of(*self, all) && singleton_of(
                        *self,
                        target,
                        seed,
                    ) && #[trigger] reaches_to(g, all, seed, v),
    {
        let graph = SdGraph::from_regulatory_graph(self);
        let all = graph.mk_all_vertices();
        let mut seed = VertexSet::empty(self.num_vars);
        seed.insert(target);
        let r = graph.restricted_backward_reachable(&all, &seed);
        proof {
            assert(sd_graph_of(*self, graph) && full_of(*self, all) && singleton_of(
                *self,
                target,
                seed,
            ));
            assert forall|v: int|
                #[trigger] r.has(v) implies exists|g: SdGraph, a2: VertexSet, s2: VertexSet|
                sd_graph_of(*self, g) && full_of(*self, a2) && singleton_of(*self, target, s2)
                    && #[trigger] reaches_to(g, a2, s2, v) by {
                assert(reaches_to(graph, all, seed, v));
            }
            assert forall|v: int|
                (exists|g: SdGraph, a2: VertexSet, s2: VertexSet|
                    sd_graph_of(*self, g) && full_of(*self, a2) && singleton_of(*self, target, s2)
                        && #[trigger] reaches_to(g, a2, s2, v)) implies #[trigger] r.has(v) by {
                let (g, a2, s2) = choose|g: SdGraph, a2: VertexSet, s2: VertexSet|
                    sd_graph_of(*self, g) && full_of(*self, a2) && singleton_of(*self, target, s2)
                        && #[trigger] reaches_to(g, a2, s2, v);
                crate::queries::lemma_reaches_to_congruent(g, graph, a2, all, s2, seed, v);
            }
        }
        r
    }

    /// The variables transitively regulated by `regulator`: everything
    /// reachable from `regulator` in the regulation graph.
    pub fn transitive_targets(&self, regulator: VariableId) -> (r: VertexSet)
        requires
            self.wf(),
            regulator.0 < self.num_vars,
        ensures
            r.n() == self.num_vars,
            forall|v: int|
                #[trigger] r.has(v) <==> exists|g: SdGraph, all: VertexSet, seed: VertexSet|
                    sd_graph_of(*self, g) && full_of(*self, all) && singleton_of(
                        *self,
                        regulator,
                        seed,
                    ) && #[trigger] reaches_from(g, all, seed, v),
    {
        let graph = SdGraph::from_regulatory_graph(self);
        let all = graph.mk_all_vertices();
        let mut seed = VertexSet::empty(self.num_vars);
        seed.insert(regulator);
        let r = graph.restricted_forward_reachable(&all, &seed);
        proof {
            assert(sd_graph_of(*self, graph) && full_of(*self, all) && singleton_of(
                *self,
                regulator,
                seed,
            ));
            assert forall|v: int|
                #[trigger] r.has(v) implies exists|g: SdGraph, a2: VertexSet, s2: VertexSet|
                sd_graph_of(*self, g) && full_of(*self, a2) && singleton_of(
                    *self,
                    regulator,
                    s2,
                ) && #[trigger] reaches_from(g, a2, s2, v) by {
                assert(reaches_from(graph, all, seed, v));
            }
            assert forall|v: int|
                (exists|g: SdGraph, a2: VertexSet, s2: VertexSet|
                    sd_graph_of(*self, g) && full_of(*self, a2) && singleton_of(
                        *self,
                        regulator,
                        s2,
                    ) && #[trigger] reaches_from(g, a2, s2, v)) implies #[trigger] r.has(v) by {
                let (g, a2, s2) = choose|g: SdGraph, a2: VertexSet, s2: VertexSet|
                    sd_graph_of(*self, g) && full_of(*self, a2) && singleton_of(
                        *self,
                        regulator,
                        s2,
                    ) && #[trigger] reaches_from(g, a2, s2, v);
                crate::queries::lemma_reaches_from_congruent(g, graph, a2, all, s2, seed, v);
            }
        }
        r
    }

    /// The shortest simple cycle through `pivot` in the regulation graph,
    /// starting at `pivot`: no cycle through `pivot` is shorter, and `None`
    /// comes back exactly when no cycle passes through `pivot` at all.
    pub fn shortest_cycle(&self, pivot: VariableId) -> (r: Option<Vec<VariableId>>)
        requires
            self.wf(),
            pivot.0 < self.num_vars,
        ensures
            match r {
                Some(c) => {
                    &&& c@.len() >= 1
                    &&& c@[0] == pivot
                    &&& exists|g: SdGraph, all: VertexSet|
                        sd_graph_of(*self, g) && full_of(*self, all) && #[trigger] is_cycle(
                            g,
                            all,
                            ids_of(c@),
                        )
                    &&& forall|g: SdGraph, all: VertexSet, c2: Seq<int>|
                        sd_graph_of(*self, g) && full_of(*self, all) && #[trigger] is_cycle(
                            g,
                            all,
                            c2,
                        ) && c2.contains(pivot.0 as int) ==> c2.len() >= c@.len()
                },
                None => forall|g: SdGraph, all: VertexSet, c2: Seq<int>|
                    sd_graph_of(*self, g) && full_of(*self, all) && #[trigger] is_cycle(
                        g,
                        all,
                        c2,
                    ) && c2.contains(pivot.0 as int) ==> false,
            },
    {
        let graph = SdGraph::from_regulatory_graph(self);
        let all = graph.mk_all_vertices();
        let r = graph.shortest_cycle(&all, pivot, usize::MAX);
        proof {
            match &r {
                Some(c) => {
                    assert(sd_graph_of(*self, graph) && full_of(*self, all));
                    assert(is_cycle(graph, all, ids_of(c@)));
                    assert forall|g: SdGraph, a2: VertexSet, c2: Seq<int>|
                        sd_graph_of(*self, g) && full_of(*self, a2) && #[trigger] is_cycle(
                            g,
                            a2,
                            c2,
                        ) && c2.contains(pivot.0 as int) implies c2.len() >= c@.len() by {
                        lemma_cycle_congruent(g, graph, a2, all, c2);
                        assert(is_cycle(graph, all, c2));
                    }
                },
                None => {
                    assert forall|g: SdGraph, a2: VertexSet, c2: Seq<int>|
                        sd_graph_of(*self, g) && full_of(*self, a2) && #[trigger] is_cycle(
                            g,
                            a2,
                            c2,
                        ) && c2.contains(pivot.0 as int) implies false by {
                        lemma_cycle_congruent(g, graph, a2, all, c2);
                        assert(is_cycle(graph, all, c2));
                        assert(c2.len() > usize::MAX);
                        crate::cycles::lemma_distinct_bounded(c2, self.num_vars as int);
                        assert(c2.len() <= self.num_vars);
                    }
                },
            }
        }
        r
    }

    /// A greedy feedback vertex set of the regulation graph: every cycle
    /// passes through a returned vertex, and every returned vertex lies on
    /// a cycle. Minimality is not guaranteed.
    #[verifier::rlimit(100)]
    pub fn feedback_vertex_set(&self) -> (r: VertexSet)
        requires
            self.wf(),
        ensures
            r.n() == self.num_vars,
            forall|g: SdGraph, all: VertexSet, c: Seq<int>|
                sd_graph_of(*self, g) && full_of(*self, all) && #[trigger] is_cycle(g, all, c)
                    ==> exists|i: int| 0 <= i < c.len() && r.has(c[i]),
            forall|v: int|
                #[trigger] r.has(v) ==> exists|g: SdGraph, all: VertexSet, c: Seq<int>|
                    sd_graph_of(*self, g) && full_of(*self, all) && #[trigger] is_cycle(g, all, c)
                        && c.contains(v),
    {
        let graph = SdGraph::from_regulatory_graph(self);
        let all = graph.mk_all_vertices();
        let r = graph.restricted_feedback_vertex_set(&all);
        proof {
            assert forall|g: SdGraph, a2: VertexSet, c: Seq<int>|
                sd_graph_of(*self, g) && full_of(*self, a2) && #[trigger] is_cycle(g, a2, c)
                    implies exists|i: int| 0 <= i < c.len() && r.has(c[i]) by {
                lemma_cycle_congruent(g, graph, a2, all, c);
                assert(is_cycle(graph, all, c));
            }
            assert forall|v: int|
                #[trigger] r.has(v) implies exists|g: SdGraph, a2: VertexSet, c: Seq<int>|
                sd_graph_of(*self, g) && full_of(*self, a2) && #[trigger] is_cycle(g, a2, c)
                    && c.contains(v) by {
                let c = choose|c: Seq<int>| is_cycle(graph, all, c) && #[trigger] c.contains(v);
                assert(sd_graph_of(*self, graph) && full_of(*self, all) && is_cycle(
                    graph,
                    all,
                    c,
                ) && c.contains(v));
            }
        }
        r
    }
}

impl RegulatoryGraph {
    /// A greedy collection of pairwise vertex-disjoint cycles of the
    /// regulation graph that together intersect every cycle of the graph.
    /// Maximality is not guaranteed.
    #[verifier::rlimit(100)]
    pub fn independent_cycles(&self) -> (r: Vec<Vec<VariableId>>)
        requires
            self.wf(),
        ensures
            forall|k: int, g: SdGraph, all: VertexSet|
                0 <= k < r@.len() && #[trigger] sd_graph_of(*self, g) && #[trigger] full_of(
                    *self,
                    all,
                ) ==> is_cycle(g, all, ids_of((#[trigger] r@[k])@)),
            forall|k1: int, k2: int, i: int, j: int|
                0 <= k1 < k2 < r@.len() && 0 <= i < r@[k1]@.len() && 0 <= j < r@[k2]@.len()
                    ==> (#[trigger] r@[k1]@[i]).0 != (#[trigger] r@[k2]@[j]).0,
            forall|g: SdGraph, all: VertexSet, c: Seq<int>|
                #[trigger] sd_graph_of(*self, g) && #[trigger] full_of(*self, all)
                    && #[trigger] is_cycle(g, all, c) ==> exists|k: int, i: int, j: int|
                    0 <= k < r@.len() && 0 <= i < r@[k]@.len() && 0 <= j < c.len() && (r@[k]@[i]).0
                        as int == c[j],
    {
        let graph = SdGraph::from_regulatory_graph(self);
        let all0 = graph.mk_all_vertices();
        let r = graph.restricted_independent_cycles(&all0);
        proof {
            assert(sd_graph_of(*self, graph) && full_of(*self, all0));
            assert forall|k: int, g: SdGraph, all: VertexSet|
                0 <= k < r@.len() && #[trigger] sd_graph_of(*self, g) && #[trigger] full_of(
                    *self,
                    all,
                ) implies is_cycle(g, all, ids_of((#[trigger] r@[k])@)) by {
                lemma_sd_edges_agree(*self, graph, g);
                lemma_cycle_congruent(graph, g, all0, all, ids_of(r@[k]@));
            }
            assert forall|g: SdGraph, all: VertexSet, c: Seq<int>|
                #[trigger] sd_graph_of(*self, g) && #[trigger] full_of(*self, all)
                    && #[trigger] is_cycle(g, all, c) implies exists|k: int, i: int, j: int|
                0 <= k < r@.len() && 0 <= i < r@[k]@.len() && 0 <= j < c.len() && (r@[k]@[i]).0
                    as int == c[j] by {
                lemma_sd_edges_agree(*self, g, graph);
                lemma_cycle_congruent(g, graph, all, all0, c);
                assert(is_cycle(graph, all0, c));
            }
        }
        r
    }

    /// All non-trivial strongly connected components of the sub-graph of
    /// the regulation skeleton induced by `restriction`, sorted by
    /// descending size.
    #[verifier::rlimit(100)]
    pub fn restricted_strongly_connected_components(&self, restriction: &VertexSet) -> (r: Vec<
        VertexSet,
    >)
        requires
            self.wf(),
            restriction.n() == self.num_vars,
        ensures
            forall|k: int, g: SdGraph|
                0 <= k < r@.len() && #[trigger] sd_graph_of(*self, g) ==> scc_component_ok(
                    g,
                    *restriction,
                    #[trigger] r@[k],
                ) && scc_nontrivial(g, r@[k]),
            forall|k1: int, k2: int, u: int|
                0 <= k1 < k2 < r@.len() ==> !((#[trigger] r@[k1].has(u)) && (
                #[trigger] r@[k2].has(u))),
            forall|g: SdGraph, c: Seq<int>|
                #[trigger] sd_graph_of(*self, g) && #[trigger] is_cycle(g, *restriction, c)
                    ==> exists|k: int| 0 <= k < r@.len() && comp_contains_cycle(r@[k], c),
            forall|k1: int, k2: int|
                0 <= k1 <= k2 < r@.len() ==> (#[trigger] r@[k1]).size() >= (
                #[trigger] r@[k2]).size(),
    {
        let graph = SdGraph::from_regulatory_graph(self);
        let r = graph.restricted_strongly_connected_components(restriction);
        proof {
            assert(sd_graph_of(*self, graph));
            assert forall|k: int, g: SdGraph|
                0 <= k < r@.len() && #[trigger] sd_graph_of(*self, g) implies scc_component_ok(
                g,
                *restriction,
                #[trigger] r@[k],
            ) && scc_nontrivial(g, r@[k]) by {
                lemma_sd_edges_agree(*self, graph, g);
                lemma_sd_edges_agree(*self, g, graph);
                lemma_component_ok_transfer(graph, g, *restriction, *restriction, r@[k]);
                if r@[k].size() < 2 {
                    let v = choose|v: int| #[trigger] r@[k].has(v) && graph.edge(v, v);
                    assert(g.edge(v, v));
                }
            }
            assert forall|g: SdGraph, c: Seq<int>|
                #[trigger] sd_graph_of(*self, g) && #[trigger] is_cycle(g, *restriction, c)
                    implies exists|k: int|
                0 <= k < r@.len() && comp_contains_cycle(r@[k], c) by {
                lemma_sd_edges_agree(*self, g, graph);
                lemma_cycle_congruent(g, graph, *restriction, *restriction, c);
                assert(is_cycle(graph, *restriction, c));
            }
        }
        r
    }

    /// All non-trivial strongly connected components of the full regulation
    /// skeleton, sorted by descending size.
    #[verifier::rlimit(100)]
    pub fn strongly_connected_components(&self) -> (r: Vec<VertexSet>)
        requires
            self.wf(),
        ensures
            forall|k: int, g: SdGraph, all: VertexSet|
                0 <= k < r@.len() && #[trigger] sd_graph_of(*self, g) && #[trigger] full_of(
                    *self,
                    all,
                ) ==> scc_component_ok(g, all, #[trigger] r@[k]) && scc_nontrivial(g, r@[k]),
            forall|k1: int, k2: int, u: int|
                0 <= k1 < k2 < r@.len() ==> !((#[trigger] r@[k1].has(u)) && (
                #[trigger] r@[k2].has(u))),
            forall|g: SdGraph, all: VertexSet, c: Seq<int>|
                #[trigger] sd_graph_of(*self, g) && #[trigger] full_of(*self, all)
                    && #[trigger] is_cycle(g, all, c) ==> exists|k: int|
                    0 <= k < r@.len() && comp_contains_cycle(r@[k], c),
            forall|k1: int, k2: int|
                0 <= k1 <= k2 < r@.len() ==> (#[trigger] r@[k1]).size() >= (
                #[trigger] r@[k2]).size(),
    {
        let graph = SdGraph::from_regulatory_graph(self);
        let all0 = graph.mk_all_vertices();
        let r = graph.restricted_strongly_connected_components(&all0);
        proof {
            assert(sd_graph_of(*self, graph) && full_of(*self, all0));
            assert forall|k: int, g: SdGraph, all: VertexSet|
                0 <= k < r@.len() && #[trigger] sd_graph_of(*self, g) && #[trigger] full_of(
                    *self,
                    all,
                ) implies scc_component_ok(g, all, #[trigger] r@[k]) && scc_nontrivial(
                g,
                r@[k],
            ) by {
                lemma_sd_edges_agree(*self, graph, g);
                lemma_sd_edges_agree(*self, g, graph);
                lemma_component_ok_transfer(graph, g, all0, all, r@[k]);
                if r@[k].size() < 2 {
                    let v = choose|v: int| #[trigger] r@[k].has(v) && graph.edge(v, v);
                    assert(g.edge(v, v));
                }
            }
            assert forall|g: SdGraph, all: VertexSet, c: Seq<int>|
                #[trigger] sd_graph_of(*self, g) && #[trigger] full_of(*self, all)
                    && #[trigger] is_cycle(g, all, c) implies exists|k: int|
                0 <= k < r@.len() && comp_contains_cycle(r@[k], c) by {
                lemma_sd_edges_agree(*self, g, graph);
                lemma_cycle_congruent(g, graph, all, all0, c);
                assert(is_cycle(graph, all0, c));
            }
        }
        r
    }
}

/// Two signed graphs of one regulatory graph have the same edges.
pub proof fn lemma_sd_edges_agree(rg: RegulatoryGraph, ga: SdGraph, gb: SdGraph)
    requires
        sd_graph_of(rg, ga),
        sd_graph_of(rg, gb),
    ensures
        forall|u: int, w: int| #[trigger] ga.edge(u, w) ==> gb.edge(u, w),
{
    assert forall|u: int, w: int| #[trigger] ga.edge(u, w) implies gb.edge(u, w) by {
        if ga.succ_edge(u, w, crate::network::Sign::Positive) {
            assert(gb.succ_edge(u, w, crate::network::Sign::Positive));
        } else {
            assert(ga.succ_edge(u, w, crate::network::Sign::Negative));
            assert(gb.succ_edge(u, w, crate::network::Sign::Negative));
        }
    }
}

/// `g` is the signed directed graph of `rg`.
pub open spec fn sd_graph_of(rg: RegulatoryGraph, g: SdGraph) -> bool {
    &&& g.wf()
    &&& g.n() == rg.num_vars
    &&& forall|u: int, v: int, s: crate::network::Sign|
        #[trigger] g.succ_edge(u, v, s) <==> rg_edge(rg, u, v, s)
}

/// `all` is the full vertex set of `rg`.
pub open spec fn full_of(rg: RegulatoryGraph, all: VertexSet) -> bool {
    all.n() == rg.num_vars && forall|v: int| #[trigger] all.has(v) <==> 0 <= v < rg.num_vars
}

/// `seed` contains exactly the vertex `v0`.
pub open spec fn singleton_of(rg: RegulatoryGraph, v0: VariableId, seed: VertexSet) -> bool {
    seed.n() == rg.num_vars && forall|v: int| #[trigger] seed.has(v) <==> v == v0.0
}

/// Two signed graphs of the same regulatory graph have the same cycles.
pub proof fn lemma_cycle_congruent(
    ga: SdGraph,
    gb: SdGraph,
    alla: VertexSet,
    allb: VertexSet,
    c: Seq<int>,
)
    requires
        is_cycle(ga, alla, c),
        ga.n() == gb.n(),
        forall|u: int, v: int| #[trigger] ga.edge(u, v) ==> gb.edge(u, v),
        forall|v: int| alla.has(v) ==> allb.has(v),
    ensures
        is_cycle(gb, allb, c),
{
}

/// Reachability transfers between two signed graphs of one regulatory graph.
pub proof fn lemma_reaches_from_congruent(
    ga: SdGraph,
    gb: SdGraph,
    alla: VertexSet,
    allb: VertexSet,
    sa: VertexSet,
    sb: VertexSet,
    v: int,
)
    requires
        reaches_from(ga, alla, sa, v),
        ga.n() == gb.n(),
        forall|u: int, w: int| #[trigger] ga.edge(u, w) ==> gb.edge(u, w),
        forall|u: int| alla.has(u) ==> allb.has(u),
        forall|u: int| sa.has(u) ==> sb.has(u),
    ensures
        reaches_from(gb, allb, sb, v),
{
    let p = choose|p: Seq<int>|
        #[trigger] crate::sd_graph::is_walk(ga, alla, p) && sa.has(p[0]) && p.last() == v;
    assert(crate::sd_graph::is_walk(gb, allb, p));
}

/// Backward reachability transfers likewise.
pub proof fn lemma_reaches_to_congruent(
    ga: SdGraph,
    gb: SdGraph,
    alla: VertexSet,
    allb: VertexSet,
    sa: VertexSet,
    sb: VertexSet,
    v: int,
)
    requires
        reaches_to(ga, alla, sa, v),
        ga.n() == gb.n(),
        forall|u: int, w: int| #[trigger] ga.edge(u, w) ==> gb.edge(u, w),
        forall|u: int| alla.has(u) ==> allb.has(u),
        forall|u: int| sa.has(u) ==> sb.has(u),
    ensures
        reaches_to(gb, allb, sb, v),
{
    let p = choose|p: Seq<int>|
        #[trigger] crate::sd_graph::is_walk(ga, alla, p) && p[0] == v && sa.has(p.last());
    assert(crate::sd_graph::is_walk(gb, allb, p));
}

} // verus!
