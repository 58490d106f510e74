//! The signed directed graph of a regulatory graph: dual adjacency with a
//! sign on every edge, and the spec-level notions of walks and simple cycles
//! that all the structural algorithms are verified against.

use vstd::prelude::*;
use crate::network::Monotonicity;
use crate::network::RegulatoryGraph;
use crate::network::Sign;
use crate::network::VariableId;
use crate::vset::VertexSet;

verus! {

/// A compact signed directed graph: for every vertex, its outgoing edges
/// (`successors`) and incoming edges (`predecessors`) with their signs.
pub struct SdGraph {
    pub successors: Vec<Vec<(VariableId, Sign)>>,
    pub predecessors: Vec<Vec<(VariableId, Sign)>>,
}

/// A declared regulation sign is compatible with an edge sign: a regulation
/// of unknown monotonicity stands for a parallel pair of edges of both signs.
pub open spec fn mono_matches(m: Option<Monotonicity>, s: Sign) -> bool {
    match m {
        Some(Monotonicity::Activation) => s == Sign::Positive,
        Some(Monotonicity::Inhibition) => s == Sign::Negative,
        None => true,
    }
}

/// An adjacency row holds the pair `(v, s)`.
pub open spec fn row_has(row: Seq<(VariableId, Sign)>, v: int, s: Sign) -> bool {
    exists|i: int| 0 <= i < row.len() && (#[trigger] row[i]).0.0 == v && row[i].1 == s
}

/// Among the first `k` regulations there is an edge `u -> v` with sign `s`.
pub open spec fn rg_edge_upto(rg: RegulatoryGraph, k: int, u: int, v: int, s: Sign) -> bool {
    exists|i: int|
        0 <= i < k && i < rg.regulations@.len() && (#[trigger] rg.regulations@[i]).regulator.0
            == u && rg.regulations@[i].target.0 == v && mono_matches(
            rg.regulations@[i].monotonicity,
            s,
        )
}

/// The regulatory graph has an edge `u -> v` with sign `s`.
pub open spec fn rg_edge(rg: RegulatoryGraph, u: int, v: int, s: Sign) -> bool {
    rg_edge_upto(rg, rg.regulations@.len() as int, u, v, s)
}

impl SdGraph {
    /// The number of vertices.
    pub open spec fn n(self) -> nat {
        self.successors@.len()
    }

    /// There is an edge `u -> v` with sign `s`, read off the successor lists.
    pub open spec fn succ_edge(self, u: int, v: int, s: Sign) -> bool {
        &&& 0 <= u < self.successors@.len()
        &&& row_has(self.successors@[u]@, v, s)
    }

    /// There is an edge `u -> v` with sign `s`, read off the predecessor
    /// lists of `v`.
    pub open spec fn pred_edge(self, u: int, v: int, s: Sign) -> bool {
        &&& 0 <= v < self.predecessors@.len()
        &&& row_has(self.predecessors@[v]@, u, s)
    }

    /// There is an edge `u -> v` of either sign.
    pub open spec fn edge(self, u: int, v: int) -> bool {
        self.succ_edge(u, v, Sign::Positive) || self.succ_edge(u, v, Sign::Negative)
    }

    /// The two adjacency structures mirror each other and all neighbour ids
    /// are in range.
    pub open spec fn wf(self) -> bool {
        &&& self.successors@.len() == self.predecessors@.len()
        &&& forall|u: int, i: int|
            0 <= u < self.successors@.len() && 0 <= i < self.successors@[u]@.len() ==> (
            #[trigger] self.successors@[u]@[i]).0.0 < self.successors@.len()
        &&& forall|v: int, i: int|
            0 <= v < self.predecessors@.len() && 0 <= i < self.predecessors@[v]@.len() ==> (
            #[trigger] self.predecessors@[v]@[i]).0.0 < self.predecessors@.len()
        &&& forall|u: int, v: int, s: Sign|
            #[trigger] self.succ_edge(u, v, s) <==> #[trigger] self.pred_edge(u, v, s)
    }

    /// Build the signed directed graph of a regulatory graph: a regulation
    /// with declared monotonicity contributes one signed edge, one without
    /// contributes a parallel positive and negative edge.
    #[verifier::loop_isolation(false)]
    pub fn from_regulatory_graph(rg: &RegulatoryGraph) -> (r: SdGraph)
        requires
            rg.wf(),
        ensures
            r.wf(),
            r.n() == rg.num_vars,
            forall|u: int, v: int, s: Sign| #[trigger] r.succ_edge(u, v, s) <==> rg_edge(*rg, u, v, s),
    {
        let n = rg.num_vars;
        let nr = rg.regulations.len();
        let mut successors: Vec<Vec<(VariableId, Sign)>> = Vec::new();
        let mut u: usize = 0;
        while u < n
            invariant
                rg.wf(),
                nr == rg.regulations@.len(),
                u <= n,
                successors@.len() == u,
                forall|w: int, i: int|
                    0 <= w < u && 0 <= i < successors@[w]@.len() ==> (
                    #[trigger] successors@[w]@[i]).0.0 < n,
                forall|w: int, v: int, s: Sign|
                    0 <= w < u ==> (#[trigger] row_has(successors@[w]@, v, s) <==> rg_edge(
                        *rg,
                        w,
                        v,
                        s,
                    )),
            decreases n - u,
        {
            let row = adjacency_row(rg, u, true);
            let ghost grow = row@;
            let ghost gsucc = successors@;
            successors.push(row);
            proof {
                assert(successors@[u as int]@ == grow);
                assert forall|w: int, i: int|
                    0 <= w < u + 1 && 0 <= i < successors@[w]@.len() implies (
                #[trigger] successors@[w]@[i]).0.0 < n by {
                    if w == u {
                        assert(successors@[w]@ == grow);
                        assert(0 <= i < grow.len());
                        assert(grow[i].0.0 < rg.num_vars);
                        assert((successors@[w]@[i]).0.0 < n);
                    } else {
                        assert(successors@[w] == gsucc[w]);
                        assert((gsucc[w]@[i]).0.0 < n);
                        assert((successors@[w]@[i]).0.0 < n);
                    }
                }
                assert forall|w: int, v2: int, s: Sign|
                    0 <= w < u + 1 implies (#[trigger] row_has(successors@[w]@, v2, s)
                    <==> rg_edge(*rg, w, v2, s)) by {
                    if w == u {
                        assert(row_has(grow, v2, s) <==> rg_edge_upto(*rg, nr as int, u as int, v2, s));
                    }
                }
            }
            u = u + 1;
        }
        let mut predecessors: Vec<Vec<(VariableId, Sign)>> = Vec::new();
        let mut v: usize = 0;
        while v < n
            invariant
                rg.wf(),
                v <= n,
                predecessors@.len() == v,
                forall|w: int, i: int|
                    0 <= w < v && 0 <= i < predecessors@[w]@.len() ==> (
                    #[trigger] predecessors@[w]@[i]).0.0 < n,
                forall|w: int, q: int, s: Sign|
                    0 <= w < v ==> (#[trigger] row_has(predecessors@[w]@, q, s) <==> rg_edge(
                        *rg,
                        q,
                        w,
                        s,
                    )),
            decreases n - v,
        {
            let row = adjacency_row(rg, v, false);
            let ghost grow2 = row@;
            let ghost gpred = predecessors@;
            predecessors.push(row);
            proof {
                assert(predecessors@[v as int]@ == grow2);
                assert forall|w: int, i: int|
                    0 <= w < v + 1 && 0 <= i < predecessors@[w]@.len() implies (
                #[trigger] predecessors@[w]@[i]).0.0 < n by {
                    if w == v {
                        assert(predecessors@[w]@[i] == grow2[i]);
                        assert(grow2[i].0.0 < rg.num_vars);
                    } else {
                        assert(predecessors@[w] == gpred[w]);
                        assert(gpred[w]@[i].0.0 < n);
                    }
                }
                assert forall|w: int, q: int, s: Sign|
                    0 <= w < v + 1 implies (#[trigger] row_has(predecessors@[w]@, q, s)
                    <==> rg_edge(*rg, q, w, s)) by {
                    if w == v {
                        assert(row_has(grow2, q, s) <==> rg_edge_upto(
                            *rg,
                            rg.regulations@.len() as int,
                            q,
                            v as int,
                            s,
                        ));
                    }
                }
            }
            v = v + 1;
        }
        let r = SdGraph { successors, predecessors };
        proof {
            assert forall|a: int, b: int, s: Sign| #[trigger] r.succ_edge(a, b, s) implies rg_edge(
                *rg,
                a,
                b,
                s,
            ) by {}
            assert forall|a: int, b: int, s: Sign|
                rg_edge(*rg, a, b, s) implies #[trigger] r.succ_edge(a, b, s) by {
                let i = choose|i: int|
                    0 <= i < rg.regulations@.len() && (#[trigger] rg.regulations@[i]).regulator.0
                        == a && rg.regulations@[i].target.0 == b && mono_matches(
                        rg.regulations@[i].monotonicity,
                        s,
                    );
                assert(0 <= a < n);
            }
            assert forall|a: int, b: int, s: Sign|
                #[trigger] r.pred_edge(a, b, s) <==> rg_edge(*rg, a, b, s) by {
                if r.pred_edge(a, b, s) {
                }
                if rg_edge(*rg, a, b, s) {
                    let i = choose|i: int|
                        0 <= i < rg.regulations@.len() && (
                        #[trigger] rg.regulations@[i]).regulator.0 == a
                            && rg.regulations@[i].target.0 == b && mono_matches(
                            rg.regulations@[i].monotonicity,
                            s,
                        );
                    assert(0 <= b < n);
                }
            }
        }
        r
    }

    /// The set of all vertices of this graph.
    pub fn mk_all_vertices(&self) -> (r: VertexSet)
        ensures
            r.n() == self.n(),
            forall|v: int| r.has(v) <==> 0 <= v < self.n(),
    {
        VertexSet::full(self.successors.len())
    }
}

/// The adjacency row of `w`: its outgoing edges when `out` is true, its
/// incoming edges otherwise.
fn adjacency_row(rg: &RegulatoryGraph, w: usize, out: bool) -> (r: Vec<(VariableId, Sign)>)
    requires
        rg.wf(),
    ensures
        forall|i: int| 0 <= i < r@.len() ==> (#[trigger] r@[i]).0.0 < rg.num_vars,
        out ==> forall|v: int, s: Sign|
            (#[trigger] row_has(r@, v, s) <==> rg_edge(*rg, w as int, v, s)),
        !out ==> forall|q: int, s: Sign|
            (#[trigger] row_has(r@, q, s) <==> rg_edge(*rg, q, w as int, s)),
{
    let nr = rg.regulations.len();
    let mut r: Vec<(VariableId, Sign)> = Vec::new();
    let mut k: usize = 0;
    while k < nr
        invariant
            rg.wf(),
            nr == rg.regulations@.len(),
            k <= nr,
            forall|i: int| 0 <= i < r@.len() ==> (#[trigger] r@[i]).0.0 < rg.num_vars,
            out ==> forall|v: int, s: Sign|
                (#[trigger] row_has(r@, v, s) <==> rg_edge_upto(*rg, k as int, w as int, v, s)),
            !out ==> forall|q: int, s: Sign|
                (#[trigger] row_has(r@, q, s) <==> rg_edge_upto(*rg, k as int, q, w as int, s)),
        decreases nr - k,
    {
        let reg = rg.regulations[k];
        let matches_end = if out {
            reg.regulator.0 == w
        } else {
            reg.target.0 == w
        };
        let ghost prev = r@;
        if matches_end {
            let other = if out {
                reg.target
            } else {
                reg.regulator
            };
            match reg.monotonicity {
                Some(Monotonicity::Activation) => {
                    r.push((other, Sign::Positive));
                },
                Some(Monotonicity::Inhibition) => {
                    r.push((other, Sign::Negative));
                },
                None => {
                    r.push((other, Sign::Positive));
                    r.push((other, Sign::Negative));
                },
            }
        }
        proof {
            assert(forall|i: int| 0 <= i < prev.len() ==> r@[i] == prev[i]);
            assert(rg.regulations@[k as int] == reg);
            let ghost kk = k as int;
            assert forall|v2: int, s2: Sign|
                #[trigger] row_has(r@, v2, s2) implies (if out {
                rg_edge_upto(*rg, kk + 1, w as int, v2, s2)
            } else {
                rg_edge_upto(*rg, kk + 1, v2, w as int, s2)
            }) by {
                let i = choose|i: int|
                    0 <= i < r@.len() && (#[trigger] r@[i]).0.0 == v2 && r@[i].1 == s2;
                if i < prev.len() {
                    assert(row_has(prev, v2, s2));
                } else {
                    assert(r@[i].0.0 == v2 && r@[i].1 == s2);
                    assert(mono_matches(reg.monotonicity, s2));
                }
            }
            assert forall|v2: int, s2: Sign|
                (if out {
                    rg_edge_upto(*rg, kk + 1, w as int, v2, s2)
                } else {
                    rg_edge_upto(*rg, kk + 1, v2, w as int, s2)
                }) implies #[trigger] row_has(r@, v2, s2) by {
                if out {
                    let j = choose|j: int|
                        0 <= j < kk + 1 && j < rg.regulations@.len() && (
                        #[trigger] rg.regulations@[j]).regulator.0 == w && rg.regulations@[j].target.0
                            == v2 && mono_matches(rg.regulations@[j].monotonicity, s2);
                    if j < kk {
                        assert(row_has(prev, v2, s2));
                        let i = choose|i: int|
                            0 <= i < prev.len() && (#[trigger] prev[i]).0.0 == v2 && prev[i].1
                                == s2;
                        assert(r@[i].0.0 == v2 && r@[i].1 == s2);
                    } else {
                        match reg.monotonicity {
                            Some(Monotonicity::Activation) => {
                                assert(r@[prev.len() as int].0.0 == v2 && r@[prev.len() as int].1
                                    == s2);
                            },
                            Some(Monotonicity::Inhibition) => {
                                assert(r@[prev.len() as int].0.0 == v2 && r@[prev.len() as int].1
                                    == s2);
                            },
                            None => {
                                if s2 == Sign::Positive {
                                    assert(r@[prev.len() as int].0.0 == v2
                                        && r@[prev.len() as int].1 == s2);
                                } else {
                                    assert(r@[prev.len() as int + 1].0.0 == v2
                                        && r@[prev.len() as int + 1].1 == s2);
                                }
                            },
                        }
                    }
                } else {
                    let j = choose|j: int|
                        0 <= j < kk + 1 && j < rg.regulations@.len() && (
                        #[trigger] rg.regulations@[j]).regulator.0 == v2
                            && rg.regulations@[j].target.0 == w && mono_matches(
                            rg.regulations@[j].monotonicity,
                            s2,
                        );
                    if j < kk {
                        assert(row_has(prev, v2, s2));
                        let i = choose|i: int|
                            0 <= i < prev.len() && (#[trigger] prev[i]).0.0 == v2 && prev[i].1
                                == s2;
                        assert(r@[i].0.0 == v2 && r@[i].1 == s2);
                    } else {
                        match reg.monotonicity {
                            Some(Monotonicity::Activation) => {
                                assert(r@[prev.len() as int].0.0 == v2 && r@[prev.len() as int].1
                                    == s2);
                            },
                            Some(Monotonicity::Inhibition) => {
                                assert(r@[prev.len() as int].0.0 == v2 && r@[prev.len() as int].1
                                    == s2);
                            },
                            None => {
                                if s2 == Sign::Positive {
                                    assert(r@[prev.len() as int].0.0 == v2
                                        && r@[prev.len() as int].1 == s2);
                                } else {
                                    assert(r@[prev.len() as int + 1].0.0 == v2
                                        && r@[prev.len() as int + 1].1 == s2);
                                }
                            },
                        }
                    }
                }
            }
        }
        k = k + 1;
    }
    r
}

/// A walk inside the restriction `rs`: a non-empty vertex sequence whose
/// vertices all lie in `rs` and whose consecutive pairs are all edges.
pub open spec fn is_walk(g: SdGraph, rs: VertexSet, p: Seq<int>) -> bool {
    &&& p.len() >= 1
    &&& forall|i: int| 0 <= i < p.len() ==> rs.has(#[trigger] p[i]) && 0 <= p[i] < g.n()
    &&& forall|i: int| 0 <= i < p.len() - 1 ==> g.edge(#[trigger] p[i], p[i + 1])
}

/// Vertex `b` is reachable from vertex `a` inside `rs`.
pub open spec fn reach_one(g: SdGraph, rs: VertexSet, a: int, b: int) -> bool {
    exists|p: Seq<int>| #[trigger] is_walk(g, rs, p) && p[0] == a && p.last() == b
}

/// A simple cycle inside `rs`: distinct vertices, consecutive edges, and a
/// closing edge from the last vertex back to the first.
pub open spec fn is_cycle(g: SdGraph, rs: VertexSet, c: Seq<int>) -> bool {
    &&& c.len() >= 1
    &&& forall|i: int, j: int| 0 <= i < j < c.len() ==> c[i] != c[j]
    &&& forall|i: int| 0 <= i < c.len() ==> rs.has(#[trigger] c[i]) && 0 <= c[i] < g.n()
    &&& forall|i: int| 0 <= i < c.len() - 1 ==> g.edge(#[trigger] c[i], c[i + 1])
    &&& g.edge(c.last(), c[0])
}

/// The ids of a vertex list, as a sequence of integers.
pub open spec fn ids_of(c: Seq<VariableId>) -> Seq<int> {
    c.map_values(|v: VariableId| v.0 as int)
}

} // verus!
