//! Greedy feedback vertex set and independent cycle set approximations.
//!
//! The feedback vertex set is proved feasible and tight in kind: every
//! cycle inside the restriction passes through a chosen vertex, and every
//! chosen vertex lies on a cycle inside the restriction. The independent
//! cycles are proved valid, pairwise vertex-disjoint, and to intersect
//! every cycle of the restriction. Neither minimality of the one nor
//! maximality of the other is guaranteed.

use vstd::prelude::*;
use crate::cycles::lemma_distinct_bounded;
use crate::sd_graph::ids_of;
use crate::network::VariableId;
use crate::sd_graph::SdGraph;
use crate::sd_graph::is_cycle;
use crate::vset::VertexSet;
use crate::vset::lemma_count_true_update;
use crate::vset::lemma_count_le_len;
use crate::vset::lemma_count_false_update;

verus! {

impl SdGraph {
    /// A cycle inside `sub` is a cycle inside any superset restriction.
    proof fn lemma_cycle_subset(self, sub: VertexSet, sup: VertexSet, c: Seq<int>)
        requires
            is_cycle(self, sub, c),
            forall|v: int| sub.has(v) ==> sup.has(v),
        ensures
            is_cycle(self, sup, c),
    {
    }

    /// Greedy approximation of a minimum feedback vertex set of the
    /// sub-graph induced by `restriction`: repeatedly remove the vertex with
    /// the shortest cycle through it (ties broken by higher total degree,
    /// then by lower id) until no cycle remains. Every cycle inside the
    /// restriction passes through a returned vertex, and every returned
    /// vertex lies on a cycle inside the restriction.
    #[verifier::loop_isolation(false)]
    pub fn restricted_feedback_vertex_set(&self, restriction: &VertexSet) -> (r: VertexSet)
        requires
            self.wf(),
            restriction.n() == self.n(),
        ensures
            r.n() == self.n(),
            forall|v: int| #[trigger] r.has(v) ==> restriction.has(v),
            forall|c: Seq<int>|
                #[trigger] is_cycle(*self, *restriction, c) ==> exists|i: int|
                    0 <= i < c.len() && r.has(c[i]),
            forall|v: int|
                #[trigger] r.has(v) ==> exists|c: Seq<int>|
                    is_cycle(*self, *restriction, c) && #[trigger] c.contains(v),
    {
        let n = self.successors.len();
        let mut work = restriction.copied();
        let mut fvs = VertexSet::empty(n);
        let mut removed: usize = 0;
        loop
            invariant
                work.n() == n,
                fvs.n() == n,
                removed == fvs.size(),
                removed <= n,
                forall|v: int| #[trigger] work.has(v) <==> (restriction.has(v) && !fvs.has(v)),
                forall|v: int| #[trigger] fvs.has(v) ==> restriction.has(v),
                forall|v: int|
                    #[trigger] fvs.has(v) ==> exists|c: Seq<int>|
                        is_cycle(*self, *restriction, c) && #[trigger] c.contains(v),
            decreases n - removed,
        {
            let mut best: Option<(VariableId, usize, usize)> = None;
            let mut v: usize = 0;
            while v < n
                invariant
                    v <= n,
                    work.n() == n,
                    match best {
                        Some(b) => b.0.0 < n && work.has(b.0.0 as int) && exists|c: Seq<int>|
                            is_cycle(*self, work, c) && #[trigger] c.contains(b.0.0 as int),
                        None => forall|v2: int, c: Seq<int>|
                            #![trigger is_cycle(*self, work, c), c.contains(v2)]
                            0 <= v2 < v && is_cycle(*self, work, c) && c.contains(v2) ==> false,
                    },
                decreases n - v,
            {
                if work.contains(VariableId(v)) {
                    match self.shortest_cycle(&work, VariableId(v), usize::MAX) {
                        Some(c) => {
                            let d1 = self.successors[v].len();
                            let d2 = self.predecessors[v].len();
                            let deg = if d1 > usize::MAX - d2 {
                                usize::MAX
                            } else {
                                d1 + d2
                            };
                            let better = match &best {
                                None => true,
                                Some(b) => c.len() < b.1 || (c.len() == b.1 && deg > b.2),
                            };
                            if better {
                                proof {
                                    let cv = crate::sd_graph::ids_of(c@);
                                    assert(is_cycle(*self, work, cv));
                                    assert(cv[0] == v as int);
                                    assert(cv.contains(v as int));
                                }
                                best = Some((VariableId(v), c.len(), deg));
                            }
                        },
                        None => {
                            if best.is_none() {
                                proof {
                                assert forall|v2: int, c: Seq<int>|
                                    #![trigger is_cycle(*self, work, c), c.contains(v2)]
                                    0 <= v2 < v + 1 && is_cycle(*self, work, c) && c.contains(
                                        v2,
                                    ) implies false by {
                                    if v2 == v {
                                        assert(c.contains(v as int));
                                        assert(c.len() > usize::MAX);
                                        lemma_distinct_bounded(c, n as int);
                                        assert(c.len() <= n);
                                    }
                                }
                                }
                            }
                        },
                    }
                } else {
                    if best.is_none() {
                        proof {
                        assert forall|v2: int, c: Seq<int>|
                            #![trigger is_cycle(*self, work, c), c.contains(v2)]
                            0 <= v2 < v + 1 && is_cycle(*self, work, c) && c.contains(
                                v2,
                            ) implies false by {
                            if v2 == v {
                                let i = choose|i: int| 0 <= i < c.len() && c[i] == v2;
                                assert(work.has(c[i]));
                            }
                        }
                        }
                    }
                }
                v = v + 1;
            }
            match best {
                None => {
                    proof {
                        assert forall|c: Seq<int>|
                            #[trigger] is_cycle(*self, *restriction, c) implies exists|i: int|
                            0 <= i < c.len() && fvs.has(c[i]) by {
                            if !(exists|i: int| 0 <= i < c.len() && fvs.has(c[i])) {
                                assert forall|i: int| 0 <= i < c.len() implies work.has(
                                    #[trigger] c[i],
                                ) by {
                                    assert(restriction.has(c[i]));
                                    assert(!fvs.has(c[i]));
                                }
                                assert(is_cycle(*self, work, c));
                                assert(c.contains(c[0])) by {
                                    assert(c[0] == c[0]);
                                }
                            }
                        }
                    }
                    return fvs;
                },
                Some(b) => {
                    proof {
                        lemma_count_true_update(fvs.member@, b.0.0 as int);
                        lemma_count_le_len(fvs.member@.update(b.0.0 as int, true));
                        let c = choose|c: Seq<int>|
                            is_cycle(*self, work, c) && #[trigger] c.contains(b.0.0 as int);
                        self.lemma_cycle_subset(work, *restriction, c);
                        assert(is_cycle(*self, *restriction, c) && c.contains(b.0.0 as int));
                    }
                    fvs.insert(b.0);
                    work.remove(b.0);
                    removed = removed + 1;
                },
            }
        }
    }

}


impl SdGraph {
    /// Remove every vertex of a cycle from the working set.
    #[verifier::loop_isolation(false)]
    #[verifier::rlimit(100)]
    fn remove_cycle_vertices(&self, work: &mut VertexSet, c: &Vec<VariableId>)
        requires
            self.wf(),
            old(work).n() == self.n(),
            is_cycle(*self, *old(work), ids_of(c@)),
        ensures
            final(work).n() == old(work).n(),
            forall|u: int|
                #[trigger] final(work).has(u) <==> (old(work).has(u) && !(exists|q: int|
                    0 <= q < c@.len() && (#[trigger] c@[q]).0 == u)),
            final(work).size() < old(work).size(),
    {
        let ghost prev_work = *work;
        let n = self.successors.len();
        proof {
            assert forall|q: int| 0 <= q < c@.len() implies (#[trigger] c@[q]).0 < n by {
                assert(ids_of(c@)[q] == c@[q].0 as int);
            }
        }
        let m = c.len();
        let mut i: usize = 0;
        while i < m
            invariant
                i <= m,
                m == c@.len(),
                work.n() == n,
                forall|q: int| 0 <= q < m ==> (#[trigger] c@[q]).0 < n,
                forall|u: int|
                    #[trigger] work.has(u) <==> (prev_work.has(u) && !(exists|q: int|
                        0 <= q < i && (#[trigger] c@[q]).0 == u)),
                work.size() <= prev_work.size(),
                i > 0 ==> work.size() < prev_work.size(),
            decreases m - i,
        {
            let ghost pw = *work;
            proof {
                if pw.has(c@[i as int].0 as int) {
                    lemma_count_false_update(pw.member@, c@[i as int].0 as int);
                } else {
                    assert(pw.member@.update(c@[i as int].0 as int, false) =~= pw.member@);
                }
                if i == 0 {
                    assert(ids_of(c@)[0] == c@[0].0 as int);
                    assert(prev_work.has(ids_of(c@)[0]));
                    assert(pw.has(c@[0].0 as int));
                }
            }
            work.remove(c[i]);
            proof {
                assert forall|u: int|
                    #[trigger] work.has(u) <==> (prev_work.has(u) && !(exists|q: int|
                        0 <= q < i + 1 && (#[trigger] c@[q]).0 == u)) by {
                    if prev_work.has(u) {
                        if exists|q: int| 0 <= q < i + 1 && (#[trigger] c@[q]).0 == u {
                            let q = choose|q: int|
                                0 <= q < i + 1 && (#[trigger] c@[q]).0 == u;
                            if q < i {
                                assert(!pw.has(u));
                            }
                        }
                    }
                }
            }
            i = i + 1;
        }
        proof {
            assert(m > 0);
        }
    }
}

/// The running state of the greedy independent-cycle search: every emitted
/// cycle is a valid cycle of the restriction, emitted cycles are pairwise
/// vertex-disjoint, their vertices are exactly what has left the working
/// set.
pub open spec fn ics_inv(
    g: SdGraph,
    restriction: VertexSet,
    work: VertexSet,
    cycles: Seq<Vec<VariableId>>,
) -> bool {
    &&& work.n() == g.n()
    &&& forall|u: int| #[trigger] work.has(u) ==> restriction.has(u)
    &&& forall|k: int|
        0 <= k < cycles.len() ==> is_cycle(g, restriction, ids_of((#[trigger] cycles[k])@))
    &&& forall|k: int, i: int|
        0 <= k < cycles.len() && 0 <= i < cycles[k]@.len() ==> !work.has(
            (#[trigger] cycles[k]@[i]).0 as int,
        ) && (cycles[k]@[i]).0 < g.n()
    &&& forall|k1: int, k2: int, i: int, j: int|
        0 <= k1 < k2 < cycles.len() && 0 <= i < cycles[k1]@.len() && 0 <= j < cycles[k2]@.len()
            ==> (#[trigger] cycles[k1]@[i]).0 != (#[trigger] cycles[k2]@[j]).0
    &&& forall|u: int|
        restriction.has(u) && !(#[trigger] work.has(u)) ==> exists|k: int, i: int|
            0 <= k < cycles.len() && 0 <= i < cycles[k]@.len() && (#[trigger] cycles[k]@[i]).0
                == u
}

impl SdGraph {
    /// One greedy step at pivot `v`: emit the shortest cycle through `v`
    /// inside the working set and remove its vertices, or report that no
    /// cycle through `v` remains.
    #[verifier::loop_isolation(false)]
    #[verifier::rlimit(100)]
    fn independent_cycles_step(
        &self,
        restriction: &VertexSet,
        work: &mut VertexSet,
        cycles: &mut Vec<Vec<VariableId>>,
        v: VariableId,
    ) -> (found: bool)
        requires
            self.wf(),
            restriction.n() == self.n(),
            v.0 < self.n(),
            old(work).has(v.0 as int),
            ics_inv(*self, *restriction, *old(work), old(cycles)@),
        ensures
            ics_inv(*self, *restriction, *final(work), final(cycles)@),
            forall|u: int| #[trigger] final(work).has(u) ==> old(work).has(u),
            found ==> final(work).size() < old(work).size(),
            !found ==> *final(work) == *old(work) && final(cycles)@ == old(cycles)@ && (forall|
                c: Seq<int>,
            |
                #[trigger] is_cycle(*self, *old(work), c) && c.contains(v.0 as int) ==> false),
    {
        let n = self.successors.len();
        match self.shortest_cycle(work, v, usize::MAX) {
            Some(c) => {
                let ghost prev_work = *work;
                let ghost prev_cycles = cycles@;
                proof {
                    assert forall|q: int| 0 <= q < c@.len() implies (#[trigger] c@[q]).0
                        < n && prev_work.has(c@[q].0 as int) by {
                        assert(ids_of(c@)[q] == c@[q].0 as int);
                    }
                }
                self.remove_cycle_vertices(work, &c);
                proof {
                    crate::scc::lemma_walk_subset(
                        *self,
                        prev_work,
                        *restriction,
                        ids_of(c@),
                    );
                    assert(is_cycle(*self, *restriction, ids_of(c@)));
                }
                cycles.push(c);
                proof {
                    assert(forall|k: int|
                        0 <= k < prev_cycles.len() ==> cycles@[k] == prev_cycles[k]);
                    assert(cycles@[prev_cycles.len() as int]@ == c@);
                    assert forall|u: int|
                        restriction.has(u) && !(#[trigger] work.has(u)) implies exists|
                        k: int,
                        i2: int,
                    |
                        0 <= k < cycles@.len() && 0 <= i2 < cycles@[k]@.len() && (
                        #[trigger] cycles@[k]@[i2]).0 == u by {
                        if prev_work.has(u) {
                            let q = choose|q: int| 0 <= q < c@.len() && (#[trigger] c@[q]).0 == u;
                            assert((cycles@[prev_cycles.len() as int]@[q]).0 == u);
                        } else {
                            let (k, i2) = choose|k: int, i2: int|
                                0 <= k < prev_cycles.len() && 0 <= i2 < prev_cycles[k]@.len()
                                    && (#[trigger] prev_cycles[k]@[i2]).0 == u;
                            assert((cycles@[k]@[i2]).0 == u);
                        }
                    }
                    assert forall|k: int, i2: int|
                        0 <= k < cycles@.len() && 0 <= i2 < cycles@[k]@.len() implies !work.has(
                        (#[trigger] cycles@[k]@[i2]).0 as int,
                    ) && (cycles@[k]@[i2]).0 < n by {
                        if k == prev_cycles.len() {
                            assert(cycles@[k]@ == c@);
                            assert(c@[i2].0 == cycles@[k]@[i2].0);
                        } else {
                            assert(!prev_work.has((cycles@[k]@[i2]).0 as int));
                        }
                    }
                    assert forall|k1: int, k2: int, i2: int, j2: int|
                        0 <= k1 < k2 < cycles@.len() && 0 <= i2 < cycles@[k1]@.len() && 0 <= j2
                            < cycles@[k2]@.len() implies (#[trigger] cycles@[k1]@[i2]).0 != (
                    #[trigger] cycles@[k2]@[j2]).0 by {
                        if k2 == prev_cycles.len() {
                            assert(cycles@[k2]@ == c@);
                            assert(prev_work.has((c@[j2]).0 as int));
                        }
                    }
                }
                true
            },
            None => {
                proof {
                    assert forall|c: Seq<int>|
                        #[trigger] is_cycle(*self, *work, c) && c.contains(v.0 as int)
                        implies false by {
                        assert(c.len() > usize::MAX);
                        lemma_distinct_bounded(c, n as int);
                        assert(c.len() <= n);
                    }
                }
                false
            },
        }
    }

    /// Greedy collection of pairwise vertex-disjoint cycles of the
    /// restriction that together intersect every cycle of the restriction.
    #[verifier::loop_isolation(false)]
    #[verifier::rlimit(100)]
    pub fn restricted_independent_cycles(&self, restriction: &VertexSet) -> (r: Vec<
        Vec<VariableId>,
    >)
        requires
            self.wf(),
            restriction.n() == self.n(),
        ensures
            forall|k: int|
                0 <= k < r@.len() ==> is_cycle(*self, *restriction, ids_of(
                    (#[trigger] r@[k])@,
                )),
            forall|k1: int, k2: int, i: int, j: int|
                0 <= k1 < k2 < r@.len() && 0 <= i < r@[k1]@.len() && 0 <= j < r@[k2]@.len()
                    ==> (#[trigger] r@[k1]@[i]).0 != (#[trigger] r@[k2]@[j]).0,
            forall|c: Seq<int>|
                #[trigger] is_cycle(*self, *restriction, c) ==> exists|k: int, i: int, j: int|
                    0 <= k < r@.len() && 0 <= i < r@[k]@.len() && 0 <= j < c.len() && (r@[k]@[i]).0
                        as int == c[j],
    {
        let n = self.successors.len();
        let mut work = restriction.copied();
        let mut cycles: Vec<Vec<VariableId>> = Vec::new();
        let mut v: usize = 0;
        while v < n
            invariant
                v <= n,
                ics_inv(*self, *restriction, work, cycles@),
                forall|v2: int, c: Seq<int>|
                    #![trigger is_cycle(*self, work, c), c.contains(v2)]
                    0 <= v2 < v && is_cycle(*self, work, c) && c.contains(v2) ==> false,
            decreases work.size(), n - v,
        {
            if work.contains(VariableId(v)) {
                let ghost work0 = work;
                let found = self.independent_cycles_step(
                    restriction,
                    &mut work,
                    &mut cycles,
                    VariableId(v),
                );
                if found {
                    proof {
                        assert forall|v2: int, c: Seq<int>|
                            #![trigger is_cycle(*self, work, c), c.contains(v2)]
                            0 <= v2 < v && is_cycle(*self, work, c) && c.contains(v2)
                            implies false by {
                            assert(is_cycle(*self, work0, c));
                        }
                    }
                } else {
                    proof {
                        assert forall|v2: int, c: Seq<int>|
                            #![trigger is_cycle(*self, work, c), c.contains(v2)]
                            0 <= v2 < v + 1 && is_cycle(*self, work, c) && c.contains(v2)
                            implies false by {
                            if v2 == v {
                                assert(c.contains(v as int));
                            }
                        }
                    }
                    v = v + 1;
                }
            } else {
                proof {
                    assert forall|v2: int, c: Seq<int>|
                        #![trigger is_cycle(*self, work, c), c.contains(v2)]
                        0 <= v2 < v + 1 && is_cycle(*self, work, c) && c.contains(v2)
                        implies false by {
                        if v2 == v {
                            let i = choose|i: int| 0 <= i < c.len() && c[i] == v2;
                            assert(work.has(c[i]));
                        }
                    }
                }
                v = v + 1;
            }
        }
        proof {
            assert forall|c: Seq<int>|
                #[trigger] is_cycle(*self, *restriction, c) implies exists|k: int, i: int, j: int|
                0 <= k < cycles@.len() && 0 <= i < cycles@[k]@.len() && 0 <= j < c.len() && (
                cycles@[k]@[i]).0 as int == c[j] by {
                if forall|j: int| 0 <= j < c.len() ==> #[trigger] work.has(c[j]) {
                    assert(is_cycle(*self, work, c));
                    assert(c.contains(c[0])) by {
                        assert(c[0] == c[0]);
                    }
                } else {
                    let j = choose|j: int| 0 <= j < c.len() && !work.has(#[trigger] c[j]);
                    assert(restriction.has(c[j]));
                    let (k, i) = choose|k: int, i: int|
                        0 <= k < cycles@.len() && 0 <= i < cycles@[k]@.len() && (
                        #[trigger] cycles@[k]@[i]).0 == c[j];
                    assert((cycles@[k]@[i]).0 as int == c[j]);
                }
            }
        }
        cycles
    }
}

} // verus!
