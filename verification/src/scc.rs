//! Decomposition of a restricted signed directed graph into its non-trivial
//! strongly connected components, sorted by descending size.
//!
//! A returned component is proved to be a maximal mutual-reachability class
//! inside the restriction, non-trivial (two or more vertices, or a single
//! vertex with a self-loop), and every cycle inside the restriction is
//! proved to lie entirely within one returned component.

use vstd::prelude::*;
use crate::network::VariableId;
use crate::sd_graph::SdGraph;
use crate::sd_graph::is_cycle;
use crate::sd_graph::is_walk;
use crate::sd_graph::reach_one;
use crate::vset::VertexSet;
use crate::vset::lemma_count_one_unique;

verus! {

/// `u` and `w` are mutually reachable by walks inside `rs`.
pub open spec fn in_same_scc(g: SdGraph, rs: VertexSet, u: int, w: int) -> bool {
    reach_one(g, rs, u, w) && reach_one(g, rs, w, u)
}

/// `comp` is a non-empty, maximal, strongly connected set of vertices of
/// the restriction `rs`.
pub open spec fn scc_component_ok(g: SdGraph, rs: VertexSet, comp: VertexSet) -> bool {
    &&& comp.n() == g.n()
    &&& forall|u: int| #[trigger] comp.has(u) ==> rs.has(u)
    &&& forall|u: int, w: int|
        comp.has(u) && comp.has(w) ==> #[trigger] in_same_scc(g, rs, u, w)
    &&& forall|u: int, w: int|
        comp.has(u) && #[trigger] in_same_scc(g, rs, u, w) ==> comp.has(w)
    &&& exists|u: int| comp.has(u)
}

/// `comp` is non-trivial: two or more vertices, or one vertex on a
/// self-loop.
pub open spec fn scc_nontrivial(g: SdGraph, comp: VertexSet) -> bool {
    comp.size() >= 2 || exists|v: int| #[trigger] comp.has(v) && g.edge(v, v)
}

/// Every vertex of the cycle lies in the component.
pub open spec fn comp_contains_cycle(comp: VertexSet, c: Seq<int>) -> bool {
    forall|i: int| 0 <= i < c.len() ==> comp.has(#[trigger] c[i])
}

/// A walk inside a subset is a walk inside the superset.
pub proof fn lemma_walk_subset(g: SdGraph, sub: VertexSet, sup: VertexSet, p: Seq<int>)
    requires
        is_walk(g, sub, p),
        forall|v: int| sub.has(v) ==> sup.has(v),
    ensures
        is_walk(g, sup, p),
{
}

/// A prefix of a walk is a walk with the same start.
pub proof fn lemma_walk_prefix(g: SdGraph, rs: VertexSet, p: Seq<int>, i: int)
    requires
        is_walk(g, rs, p),
        0 <= i < p.len(),
    ensures
        is_walk(g, rs, p.subrange(0, i + 1)),
        p.subrange(0, i + 1)[0] == p[0],
        p.subrange(0, i + 1).last() == p[i],
{
    let q = p.subrange(0, i + 1);
    assert forall|j: int| 0 <= j < q.len() - 1 implies g.edge(#[trigger] q[j], q[j + 1]) by {
        assert(q[j] == p[j] && q[j + 1] == p[j + 1]);
    }
}

/// A suffix of a walk is a walk with the same end.
pub proof fn lemma_walk_suffix(g: SdGraph, rs: VertexSet, p: Seq<int>, i: int)
    requires
        is_walk(g, rs, p),
        0 <= i < p.len(),
    ensures
        is_walk(g, rs, p.subrange(i, p.len() as int)),
        p.subrange(i, p.len() as int)[0] == p[i],
        p.subrange(i, p.len() as int).last() == p.last(),
{
    let q = p.subrange(i, p.len() as int);
    assert forall|j: int| 0 <= j < q.len() - 1 implies g.edge(#[trigger] q[j], q[j + 1]) by {
        assert(q[j] == p[i + j] && q[j + 1] == p[i + j + 1]);
    }
}

/// Two walks sharing an endpoint concatenate into a walk.
pub proof fn lemma_walk_concat(g: SdGraph, rs: VertexSet, p: Seq<int>, q: Seq<int>)
    requires
        is_walk(g, rs, p),
        is_walk(g, rs, q),
        p.last() == q[0],
    ensures
        is_walk(g, rs, p + q.skip(1)),
        (p + q.skip(1))[0] == p[0],
        (p + q.skip(1)).last() == q.last(),
{
    let r = p + q.skip(1);
    assert forall|j: int| 0 <= j < r.len() implies rs.has(#[trigger] r[j]) && 0 <= r[j]
        < g.n() by {
        if j < p.len() {
            assert(r[j] == p[j]);
        } else {
            assert(r[j] == q[j - p.len() + 1]);
        }
    }
    assert forall|j: int| 0 <= j < r.len() - 1 implies g.edge(#[trigger] r[j], r[j + 1]) by {
        if j < p.len() - 1 {
            assert(r[j] == p[j] && r[j + 1] == p[j + 1]);
        } else if j == p.len() - 1 {
            assert(r[j] == p.last() && r[j + 1] == q[1]);
            assert(g.edge(q[0], q[1]));
        } else {
            assert(r[j] == q[j - p.len() + 1] && r[j + 1] == q[j - p.len() + 2]);
        }
    }
    if q.len() == 1 {
        assert(r =~= p);
    } else {
        assert(r.last() == q.last());
    }
}

/// Reachability inside a restriction is transitive.
pub proof fn lemma_reach_trans(g: SdGraph, rs: VertexSet, a: int, b: int, c: int)
    requires
        reach_one(g, rs, a, b),
        reach_one(g, rs, b, c),
    ensures
        reach_one(g, rs, a, c),
{
    let p = choose|p: Seq<int>| #[trigger] is_walk(g, rs, p) && p[0] == a && p.last() == b;
    let q = choose|q: Seq<int>| #[trigger] is_walk(g, rs, q) && q[0] == b && q.last() == c;
    lemma_walk_concat(g, rs, p, q);
}

/// Any two vertices of one cycle reach each other along the cycle.
pub proof fn lemma_cycle_mutual(g: SdGraph, rs: VertexSet, c: Seq<int>, i: int, j: int)
    requires
        is_cycle(g, rs, c),
        0 <= i < c.len(),
        0 <= j < c.len(),
    ensures
        reach_one(g, rs, c[i], c[j]),
{
    if i == j {
        let p = seq![c[i]];
        assert(is_walk(g, rs, p));
        assert(reach_one(g, rs, c[i], c[i]));
    } else if i < j {
        let p = c.subrange(i, j + 1);
        assert forall|t: int| 0 <= t < p.len() - 1 implies g.edge(#[trigger] p[t], p[t + 1]) by {
            assert(p[t] == c[i + t] && p[t + 1] == c[i + t + 1]);
        }
        assert(is_walk(g, rs, p) && p[0] == c[i] && p.last() == c[j]);
    } else {
        let m = c.len() as int;
        let p = c.subrange(i, m) + c.subrange(0, j + 1);
        assert forall|t: int| 0 <= t < p.len() implies rs.has(#[trigger] p[t]) && 0 <= p[t]
            < g.n() by {
            if t < m - i {
                assert(p[t] == c[i + t]);
            } else {
                assert(p[t] == c[t - (m - i)]);
            }
        }
        assert forall|t: int| 0 <= t < p.len() - 1 implies g.edge(#[trigger] p[t], p[t + 1]) by {
            if t < m - i - 1 {
                assert(p[t] == c[i + t] && p[t + 1] == c[i + t + 1]);
            } else if t == m - i - 1 {
                assert(p[t] == c[m - 1] && p[t + 1] == c[0]);
            } else {
                assert(p[t] == c[t - (m - i)] && p[t + 1] == c[t - (m - i) + 1]);
            }
        }
        assert(is_walk(g, rs, p) && p[0] == c[i] && p.last() == c[j]);
    }
}

/// The mutual-reachability class of a pivot inside `remaining` is closed
/// under mutual reachability inside the whole restriction, provided
/// `remaining` is itself a union of restriction classes.
pub proof fn lemma_scc_class_closed(
    g: SdGraph,
    restriction: VertexSet,
    remaining: VertexSet,
    p: int,
    comp: VertexSet,
)
    requires
        forall|v: int| remaining.has(v) ==> restriction.has(v),
        forall|u: int, w: int|
            remaining.has(u) && #[trigger] in_same_scc(g, restriction, u, w) ==> remaining.has(w),
        forall|u: int|
            #[trigger] comp.has(u) <==> (reach_one(g, remaining, p, u) && reach_one(
                g,
                remaining,
                u,
                p,
            )),
    ensures
        forall|w: int, u: int|
            comp.has(w) && #[trigger] in_same_scc(g, restriction, w, u) ==> comp.has(u),
{
    assert forall|w: int, u: int|
        comp.has(w) && #[trigger] in_same_scc(g, restriction, w, u) implies comp.has(u) by {
        assert(remaining.has(w)) by {
            let pw = choose|pw: Seq<int>|
                #[trigger] is_walk(g, remaining, pw) && pw[0] == p && pw.last() == w;
            assert(remaining.has(pw.last()));
        }
        let q = choose|q: Seq<int>|
            #[trigger] is_walk(g, restriction, q) && q[0] == w && q.last() == u;
        let q2 = choose|q2: Seq<int>|
            #[trigger] is_walk(g, restriction, q2) && q2[0] == u && q2.last() == w;
        // every vertex of q and q2 is in the restriction class of w
        assert forall|t: int| 0 <= t < q.len() implies remaining.has(#[trigger] q[t]) by {
            lemma_walk_prefix(g, restriction, q, t);
            lemma_walk_suffix(g, restriction, q, t);
            lemma_walk_concat(g, restriction, q.subrange(t, q.len() as int), q2);
            assert(reach_one(g, restriction, w, q[t]));
            assert(reach_one(g, restriction, q[t], w));
            assert(in_same_scc(g, restriction, w, q[t]));
        }
        assert forall|t: int| 0 <= t < q2.len() implies remaining.has(#[trigger] q2[t]) by {
            lemma_walk_prefix(g, restriction, q2, t);
            lemma_walk_suffix(g, restriction, q2, t);
            lemma_walk_concat(g, restriction, q, q2.subrange(0, t + 1));
            assert(reach_one(g, restriction, w, q2[t]));
            assert(reach_one(g, restriction, q2[t], w));
            assert(in_same_scc(g, restriction, w, q2[t]));
        }
        assert(is_walk(g, remaining, q));
        assert(is_walk(g, remaining, q2));
        assert(reach_one(g, remaining, w, u));
        assert(reach_one(g, remaining, u, w));
        lemma_reach_trans(g, remaining, p, w, u);
        lemma_reach_trans(g, remaining, u, w, p);
    }
}

impl SdGraph {
    /// True when the graph has an edge from `v` to itself.
    fn has_self_loop(&self, v: VariableId) -> (r: bool)
        requires
            self.wf(),
            v.0 < self.n(),
        ensures
            r == self.edge(v.0 as int, v.0 as int),
    {
        let row_len = self.successors[v.0].len();
        let mut idx: usize = 0;
        let mut found = false;
        while idx < row_len
            invariant
                idx <= row_len,
                row_len == self.successors@[v.0 as int]@.len(),
                v.0 < self.n(),
                found ==> self.edge(v.0 as int, v.0 as int),
                !found ==> forall|i: int|
                    0 <= i < idx ==> (#[trigger] self.successors@[v.0 as int]@[i]).0.0 != v.0,
            decreases row_len - idx,
        {
            let entry = self.successors[v.0][idx];
            if entry.0.0 == v.0 {
                found = true;
                proof {
                    assert(self.succ_edge(v.0 as int, v.0 as int, entry.1)) by {
                        assert((#[trigger] self.successors@[v.0 as int]@[idx as int]).0.0 == v.0
                            && self.successors@[v.0 as int]@[idx as int].1 == entry.1);
                    }
                }
            }
            idx = idx + 1;
        }
        found
    }
}


/// Reachability inside a subset holds inside the superset.
pub proof fn lemma_reach_subset(g: SdGraph, sub: VertexSet, sup: VertexSet, a: int, b: int)
    requires
        reach_one(g, sub, a, b),
        forall|v: int| sub.has(v) ==> sup.has(v),
    ensures
        reach_one(g, sup, a, b),
{
    let p = choose|p: Seq<int>| #[trigger] is_walk(g, sub, p) && p[0] == a && p.last() == b;
    lemma_walk_subset(g, sub, sup, p);
}

impl SdGraph {
    /// All non-trivial strongly connected components of the sub-graph
    /// induced by `restriction`, sorted by descending size: each returned
    /// set is a maximal mutual-reachability class, the sets are pairwise
    /// disjoint, and every cycle inside the restriction lies entirely
    /// within one of them.
    #[verifier::loop_isolation(false)]
    #[verifier::rlimit(100)]
    pub fn restricted_strongly_connected_components(&self, restriction: &VertexSet) -> (r: Vec<
        VertexSet,
    >)
        requires
            self.wf(),
            restriction.n() == self.n(),
        ensures
            forall|k: int|
                0 <= k < r@.len() ==> scc_component_ok(*self, *restriction, #[trigger] r@[k])
                    && scc_nontrivial(*self, r@[k]),
            forall|k1: int, k2: int, u: int|
                0 <= k1 < k2 < r@.len() ==> !((#[trigger] r@[k1].has(u)) && (
                #[trigger] r@[k2].has(u))),
            forall|c: Seq<int>|
                #[trigger] is_cycle(*self, *restriction, c) ==> exists|k: int|
                    0 <= k < r@.len() && comp_contains_cycle(#[trigger] r@[k], c),
            forall|k1: int, k2: int|
                0 <= k1 <= k2 < r@.len() ==> (#[trigger] r@[k1]).size() >= (
                #[trigger] r@[k2]).size(),
    {
        let n = self.successors.len();
        let mut remaining = restriction.copied();
        let mut comps: Vec<VertexSet> = Vec::new();
        let mut p: usize = 0;
        while p < n
            invariant
                p <= n,
                remaining.n() == n,
                forall|u: int| #[trigger] remaining.has(u) ==> restriction.has(u),
                forall|u: int| 0 <= u < p ==> !remaining.has(u),
                forall|u: int, w: int|
                    remaining.has(u) && #[trigger] in_same_scc(*self, *restriction, u, w)
                        ==> remaining.has(w),
                forall|k: int|
                    0 <= k < comps@.len() ==> scc_component_ok(
                        *self,
                        *restriction,
                        #[trigger] comps@[k],
                    ) && scc_nontrivial(*self, comps@[k]),
                forall|k: int, u: int|
                    0 <= k < comps@.len() && #[trigger] comps@[k].has(u) ==> !remaining.has(u),
                forall|k1: int, k2: int, u: int|
                    0 <= k1 < k2 < comps@.len() ==> !((#[trigger] comps@[k1].has(u)) && (
                    #[trigger] comps@[k2].has(u))),
                forall|c: Seq<int>|
                    #[trigger] is_cycle(*self, *restriction, c) ==> (exists|k: int|
                        0 <= k < comps@.len() && comp_contains_cycle(#[trigger] comps@[k], c))
                        || (forall|i: int| 0 <= i < c.len() ==> remaining.has(#[trigger] c[i])),
            decreases n - p,
        {
            if remaining.contains(VariableId(p)) {
                let mut seed = VertexSet::empty(n);
                seed.insert(VariableId(p));
                let fwd = self.restricted_forward_reachable(&remaining, &seed);
                let bwd = self.restricted_backward_reachable(&remaining, &seed);
                let comp = fwd.intersect(&bwd);
                let ghost rem0 = remaining;
                proof {
                    assert forall|u: int|
                        #[trigger] comp.has(u) <==> (reach_one(*self, rem0, p as int, u)
                            && reach_one(*self, rem0, u, p as int)) by {
                        if comp.has(u) {
                            let w1 = choose|w1: Seq<int>|
                                #[trigger] is_walk(*self, rem0, w1) && seed.has(w1[0])
                                    && w1.last() == u;
                            assert(w1[0] == p as int);
                            let w2 = choose|w2: Seq<int>|
                                #[trigger] is_walk(*self, rem0, w2) && w2[0] == u && seed.has(
                                    w2.last(),
                                );
                            assert(w2.last() == p as int);
                        }
                        if reach_one(*self, rem0, p as int, u) && reach_one(
                            *self,
                            rem0,
                            u,
                            p as int,
                        ) {
                            let w1 = choose|w1: Seq<int>|
                                #[trigger] is_walk(*self, rem0, w1) && w1[0] == p as int
                                    && w1.last() == u;
                            assert(seed.has(w1[0]));
                            assert(crate::reach::reaches_from(*self, rem0, seed, u));
                            let w2 = choose|w2: Seq<int>|
                                #[trigger] is_walk(*self, rem0, w2) && w2[0] == u && w2.last()
                                    == p as int;
                            assert(seed.has(w2.last()));
                            assert(crate::reach::reaches_to(*self, rem0, seed, u));
                        }
                    }
                    assert forall|u: int| #[trigger] comp.has(u) implies rem0.has(u) by {
                        let w1 = choose|w1: Seq<int>|
                            #[trigger] is_walk(*self, rem0, w1) && w1[0] == p as int && w1.last()
                                == u;
                        assert(rem0.has(w1.last()));
                    }
                    assert(comp.has(p as int)) by {
                        let w = seq![p as int];
                        assert(is_walk(*self, rem0, w));
                        assert(reach_one(*self, rem0, p as int, p as int));
                    }
                    lemma_scc_class_closed(*self, *restriction, rem0, p as int, comp);
                    assert forall|u: int, w: int|
                        comp.has(u) && comp.has(w) implies #[trigger] in_same_scc(
                        *self,
                        *restriction,
                        u,
                        w,
                    ) by {
                        lemma_reach_trans(*self, rem0, u, p as int, w);
                        lemma_reach_trans(*self, rem0, w, p as int, u);
                        lemma_reach_subset(*self, rem0, *restriction, u, w);
                        lemma_reach_subset(*self, rem0, *restriction, w, u);
                    }
                    assert(scc_component_ok(*self, *restriction, comp));
                }
                // remove the component from the remaining vertex set
                let mut v2: usize = 0;
                while v2 < n
                    invariant
                        v2 <= n,
                        remaining.n() == n,
                        comp.n() == n,
                        forall|u: int|
                            #[trigger] remaining.has(u) <==> (rem0.has(u) && !(u < v2
                                && comp.has(u))),
                    decreases n - v2,
                {
                    if comp.contains(VariableId(v2)) {
                        remaining.remove(VariableId(v2));
                    }
                    v2 = v2 + 1;
                }
                proof {
                    assert forall|u: int|
                        #[trigger] remaining.has(u) <==> (rem0.has(u) && !comp.has(u)) by {}
                    assert forall|u: int, w: int|
                        remaining.has(u) && #[trigger] in_same_scc(*self, *restriction, u, w)
                            implies remaining.has(w) by {
                        assert(rem0.has(w));
                        if comp.has(w) {
                            assert(in_same_scc(*self, *restriction, w, u));
                            assert(comp.has(u));
                        }
                    }
                }
                let size = comp.count();
                let nontrivial = if size >= 2 {
                    true
                } else {
                    self.has_self_loop(VariableId(p))
                };
                let ghost gcomp = comp;
                let ghost prev_comps = comps@;
                if nontrivial {
                    proof {
                        if size < 2 {
                            assert(scc_nontrivial(*self, comp)) by {
                                assert(comp.has(p as int) && self.edge(p as int, p as int));
                            }
                        }
                    }
                    comps.push(comp);
                }
                proof {
                    if nontrivial {
                        assert(forall|k: int|
                            0 <= k < prev_comps.len() ==> comps@[k] == prev_comps[k]);
                        assert(comps@[prev_comps.len() as int] == gcomp);
                    }
                    assert forall|c: Seq<int>|
                        #[trigger] is_cycle(*self, *restriction, c) implies (exists|k: int|
                        0 <= k < comps@.len() && comp_contains_cycle(#[trigger] comps@[k], c)) || (
                    forall|i: int| 0 <= i < c.len() ==> remaining.has(#[trigger] c[i])) by {
                        if exists|k: int|
                            0 <= k < prev_comps.len() && comp_contains_cycle(
                                #[trigger] prev_comps[k],
                                c,
                            ) {
                            let k = choose|k: int|
                                0 <= k < prev_comps.len() && comp_contains_cycle(
                                    #[trigger] prev_comps[k],
                                    c,
                                );
                            assert(comps@[k] == prev_comps[k]);
                            assert(comp_contains_cycle(comps@[k], c));
                        } else if forall|i: int|
                            0 <= i < c.len() ==> rem0.has(#[trigger] c[i]) {
                            if exists|i: int| 0 <= i < c.len() && gcomp.has(#[trigger] c[i]) {
                                let i = choose|i: int|
                                    0 <= i < c.len() && gcomp.has(#[trigger] c[i]);
                                assert(is_cycle(*self, rem0, c));
                                assert forall|j: int|
                                    0 <= j < c.len() implies gcomp.has(#[trigger] c[j]) by {
                                    lemma_cycle_mutual(*self, rem0, c, i, j);
                                    lemma_cycle_mutual(*self, rem0, c, j, i);
                                    lemma_reach_subset(*self, rem0, *restriction, c[i], c[j]);
                                    lemma_reach_subset(*self, rem0, *restriction, c[j], c[i]);
                                    assert(in_same_scc(*self, *restriction, c[i], c[j]));
                                }
                                if nontrivial {
                                    assert(comp_contains_cycle(
                                        comps@[prev_comps.len() as int],
                                        c,
                                    ));
                                } else {
                                    crate::vset::lemma_count_pos(gcomp.member@, p as int);
                                    assert(gcomp.size() == 1);
                                    lemma_count_one_unique(gcomp.member@, p as int);
                                    assert forall|j: int|
                                        0 <= j < c.len() implies #[trigger] c[j] == p as int by {
                                        assert(gcomp.has(c[j]));
                                    }
                                    assert(c.len() == 1) by {
                                        if c.len() >= 2 {
                                            assert(c[0] == p as int && c[1] == p as int);
                                        }
                                    }
                                    assert(self.edge(c.last(), c[0]));
                                    assert(self.edge(p as int, p as int));
                                    assert(false);
                                }
                            } else {
                                assert forall|i: int|
                                    0 <= i < c.len() implies remaining.has(#[trigger] c[i]) by {
                                    assert(rem0.has(c[i]) && !gcomp.has(c[i]));
                                }
                            }
                        }
                    }
                }
            }
            p = p + 1;
        }
        proof {
            assert forall|c: Seq<int>|
                #[trigger] is_cycle(*self, *restriction, c) implies exists|k: int|
                0 <= k < comps@.len() && comp_contains_cycle(#[trigger] comps@[k], c) by {
                if forall|i: int| 0 <= i < c.len() ==> remaining.has(#[trigger] c[i]) {
                    assert(remaining.has(c[0]));
                    assert(false);
                }
            }
        }
        // sort by descending size
        let mut sorted: Vec<VertexSet> = Vec::new();
        while comps.len() > 0
            invariant
                forall|k: int|
                    0 <= k < sorted@.len() ==> scc_component_ok(
                        *self,
                        *restriction,
                        #[trigger] sorted@[k],
                    ) && scc_nontrivial(*self, sorted@[k]),
                forall|k: int|
                    0 <= k < comps@.len() ==> scc_component_ok(
                        *self,
                        *restriction,
                        #[trigger] comps@[k],
                    ) && scc_nontrivial(*self, comps@[k]),
                forall|k1: int, k2: int, u: int|
                    0 <= k1 < k2 < sorted@.len() ==> !((#[trigger] sorted@[k1].has(u)) && (
                    #[trigger] sorted@[k2].has(u))),
                forall|k1: int, k2: int, u: int|
                    0 <= k1 < k2 < comps@.len() ==> !((#[trigger] comps@[k1].has(u)) && (
                    #[trigger] comps@[k2].has(u))),
                forall|k1: int, k2: int, u: int|
                    0 <= k1 < sorted@.len() && 0 <= k2 < comps@.len() ==> !((
                    #[trigger] sorted@[k1].has(u)) && (#[trigger] comps@[k2].has(u))),
                forall|k1: int, k2: int|
                    0 <= k1 <= k2 < sorted@.len() ==> (#[trigger] sorted@[k1]).size() >= (
                    #[trigger] sorted@[k2]).size(),
                forall|k1: int, k2: int|
                    0 <= k1 < sorted@.len() && 0 <= k2 < comps@.len() ==> (
                    #[trigger] sorted@[k1]).size() >= (#[trigger] comps@[k2]).size(),
                forall|c: Seq<int>|
                    #[trigger] is_cycle(*self, *restriction, c) ==> (exists|k: int|
                        0 <= k < sorted@.len() && comp_contains_cycle(#[trigger] sorted@[k], c))
                        || (exists|k: int|
                        0 <= k < comps@.len() && comp_contains_cycle(#[trigger] comps@[k], c)),
            decreases comps@.len(),
        {
            let m = comps.len();
            let mut mi: usize = 0;
            let mut msize = comps[0].count();
            let mut j: usize = 1;
            while j < m
                invariant
                    m == comps@.len(),
                    1 <= j <= m,
                    mi < j,
                    msize == comps@[mi as int].size(),
                    forall|k: int| 0 <= k < j ==> msize >= (#[trigger] comps@[k]).size(),
                decreases m - j,
            {
                let sz = comps[j].count();
                if sz > msize {
                    mi = j;
                    msize = sz;
                }
                j = j + 1;
            }
            let ghost prev_comps = comps@;
            let ghost prev_sorted = sorted@;
            let picked = comps.remove(mi);
            sorted.push(picked);
            proof {
                assert(sorted@[prev_sorted.len() as int] == prev_comps[mi as int]);
                assert(forall|k: int|
                    0 <= k < prev_sorted.len() ==> sorted@[k] == prev_sorted[k]);
                assert(forall|k: int|
                    0 <= k < mi ==> comps@[k] == prev_comps[k]);
                assert(forall|k: int|
                    mi <= k < comps@.len() ==> comps@[k] == prev_comps[k + 1]);
                assert forall|c: Seq<int>|
                    #[trigger] is_cycle(*self, *restriction, c) implies (exists|k: int|
                    0 <= k < sorted@.len() && comp_contains_cycle(#[trigger] sorted@[k], c)) || (
                exists|k: int|
                    0 <= k < comps@.len() && comp_contains_cycle(#[trigger] comps@[k], c)) by {
                    if exists|k: int|
                        0 <= k < prev_sorted.len() && comp_contains_cycle(
                            #[trigger] prev_sorted[k],
                            c,
                        ) {
                        let k = choose|k: int|
                            0 <= k < prev_sorted.len() && comp_contains_cycle(
                                #[trigger] prev_sorted[k],
                                c,
                            );
                        assert(comp_contains_cycle(sorted@[k], c));
                    } else {
                        let k = choose|k: int|
                            0 <= k < prev_comps.len() && comp_contains_cycle(
                                #[trigger] prev_comps[k],
                                c,
                            );
                        if k == mi {
                            assert(comp_contains_cycle(sorted@[prev_sorted.len() as int], c));
                        } else if k < mi {
                            assert(comp_contains_cycle(comps@[k], c));
                        } else {
                            assert(comp_contains_cycle(comps@[k - 1], c));
                        }
                    }
                }
            }
        }
        sorted
    }
}


/// Reachability transfers to a graph with the same (or more) edges and a
/// restriction with the same (or more) members.
pub proof fn lemma_reach_one_transfer(
    ga: SdGraph,
    gb: SdGraph,
    rsa: VertexSet,
    rsb: VertexSet,
    a: int,
    b: int,
)
    requires
        reach_one(ga, rsa, a, b),
        ga.n() == gb.n(),
        forall|u: int, w: int| #[trigger] ga.edge(u, w) ==> gb.edge(u, w),
        forall|v: int| rsa.has(v) ==> rsb.has(v),
    ensures
        reach_one(gb, rsb, a, b),
{
    let p = choose|p: Seq<int>| #[trigger] is_walk(ga, rsa, p) && p[0] == a && p.last() == b;
    assert(is_walk(gb, rsb, p));
}

/// A maximal strongly connected component is one in any graph with the same
/// edges and any restriction with the same members.
pub proof fn lemma_component_ok_transfer(
    ga: SdGraph,
    gb: SdGraph,
    rsa: VertexSet,
    rsb: VertexSet,
    comp: VertexSet,
)
    requires
        scc_component_ok(ga, rsa, comp),
        ga.n() == gb.n(),
        forall|u: int, w: int| #[trigger] ga.edge(u, w) <==> gb.edge(u, w),
        forall|v: int| #[trigger] rsa.has(v) <==> rsb.has(v),
    ensures
        scc_component_ok(gb, rsb, comp),
{
    assert forall|u: int, w: int|
        comp.has(u) && comp.has(w) implies #[trigger] in_same_scc(gb, rsb, u, w) by {
        assert(in_same_scc(ga, rsa, u, w));
        lemma_reach_one_transfer(ga, gb, rsa, rsb, u, w);
        lemma_reach_one_transfer(ga, gb, rsa, rsb, w, u);
    }
    assert forall|u: int, w: int|
        comp.has(u) && #[trigger] in_same_scc(gb, rsb, u, w) implies comp.has(w) by {
        lemma_reach_one_transfer(gb, ga, rsb, rsa, u, w);
        lemma_reach_one_transfer(gb, ga, rsb, rsa, w, u);
        assert(in_same_scc(ga, rsa, u, w));
    }
}

} // verus!
