//! Shortest-cycle search through a pivot vertex, by breadth-first search
//! inside a vertex restriction. The returned cycle is proved simple and
//! valid, and no cycle through the pivot is shorter.

use vstd::prelude::*;
use crate::network::VariableId;
use crate::sd_graph::SdGraph;
use crate::sd_graph::ids_of;
use crate::sd_graph::is_cycle;
use crate::vset::VertexSet;

verus! {

/// Every prefix vertex of a short-enough cycle through the pivot has been
/// processed by the search, with a distance bound: processed vertices'
/// outgoing edges are all discovered, unprocessed vertices have distance at
/// least `d`, and nothing processed has an edge back to the pivot.
#[verifier::rlimit(60)]
pub proof fn lemma_cycle_prefix_processed(
    g: SdGraph,
    rs: VertexSet,
    pivot: int,
    dist: Seq<Option<usize>>,
    queue: Seq<VariableId>,
    head: int,
    d: int,
    c: Seq<int>,
    j: int,
)
    requires
        dist.len() == g.n(),
        0 <= head <= queue.len(),
        0 <= pivot < g.n(),
        queue.len() >= 1,
        queue[0].0 == pivot,
        head >= 1,
        dist[pivot] == Some(0usize),
        forall|i: int| 0 <= i < queue.len() ==> (#[trigger] queue[i]).0 < g.n(),
        forall|i: int|
            0 <= i < queue.len() ==> (#[trigger] dist[queue[i].0 as int]) is Some,
        forall|v: int|
            0 <= v < g.n() && (#[trigger] dist[v]) is Some ==> exists|i: int|
                0 <= i < queue.len() && (#[trigger] queue[i]).0 == v,
        forall|i: int|
            head <= i < queue.len() ==> (#[trigger] dist[queue[i].0 as int]).unwrap() >= d,
        forall|i: int, w: int|
            0 <= i < head && #[trigger] g.edge(queue[i].0 as int, w) && rs.has(w) ==> (
            #[trigger] dist[w]) is Some && dist[w].unwrap() <= dist[queue[i].0 as int].unwrap()
                + 1,
        forall|i: int| 0 <= i < head ==> !g.edge((#[trigger] queue[i]).0 as int, pivot),
        is_cycle(g, rs, c),
        c[0] == pivot,
        c.len() <= d,
        0 <= j < c.len(),
    ensures
        exists|i: int|
            0 <= i < head && (#[trigger] queue[i]).0 == c[j] && dist[c[j]] is Some
                && dist[c[j]].unwrap() <= j,
    decreases j,
{
    if j == 0 {
        assert(queue[0].0 == c[0] && dist[c[0]].unwrap() <= 0);
    } else {
        lemma_cycle_prefix_processed(g, rs, pivot, dist, queue, head, d, c, j - 1);
        let i0 = choose|i: int|
            0 <= i < head && (#[trigger] queue[i]).0 == c[j - 1] && dist[c[j - 1]] is Some
                && dist[c[j - 1]].unwrap() <= j - 1;
        assert(g.edge(c[j - 1], c[j]));
        assert(g.edge(queue[i0].0 as int, c[j]) && rs.has(c[j]));
        assert(dist[c[j]] is Some && dist[c[j]].unwrap() <= j);
        let i1 = choose|i: int| 0 <= i < queue.len() && (#[trigger] queue[i]).0 == c[j];
        if i1 >= head {
            assert(dist[queue[i1].0 as int].unwrap() >= d);
            assert(j <= c.len() - 1);
            assert(false);
        }
        assert(queue[i1].0 == c[j]);
    }
}

/// A rotation of a simple cycle is a simple cycle of the same length,
/// starting at the chosen vertex.
pub proof fn lemma_cycle_rotate(g: SdGraph, rs: VertexSet, c: Seq<int>, k: int)
    requires
        is_cycle(g, rs, c),
        0 <= k < c.len(),
    ensures
        is_cycle(g, rs, c.skip(k) + c.take(k)),
        (c.skip(k) + c.take(k)).len() == c.len(),
        (c.skip(k) + c.take(k))[0] == c[k],
{
    let r = c.skip(k) + c.take(k);
    let m = c.len();
    assert(r.len() == m);
    assert forall|i: int| 0 <= i < m implies #[trigger] r[i] == c[if i < m - k {
        i + k
    } else {
        i - (m - k)
    }] by {}
    assert forall|i: int, j: int| 0 <= i < j < m implies r[i] != r[j] by {
        let ci = if i < m - k {
            i + k
        } else {
            i - (m - k)
        };
        let cj = if j < m - k {
            j + k
        } else {
            j - (m - k)
        };
        assert(r[i] == c[ci] && r[j] == c[cj]);
        assert(ci != cj);
    }
    assert forall|i: int| 0 <= i < m implies rs.has(#[trigger] r[i]) && 0 <= r[i] < g.n() by {
        let ci = if i < m - k {
            i + k
        } else {
            i - (m - k)
        };
        assert(r[i] == c[ci]);
    }
    assert forall|i: int| 0 <= i < m - 1 implies g.edge(#[trigger] r[i], r[i + 1]) by {
        if i < m - k - 1 {
            assert(r[i] == c[i + k] && r[i + 1] == c[i + k + 1]);
        } else if i == m - k - 1 {
            assert(r[i] == c[m - 1] && r[i + 1] == c[0]);
        } else {
            assert(r[i] == c[i - (m - k)] && r[i + 1] == c[i - (m - k) + 1]);
        }
    }
    if m - 1 < m - k {
        assert(r[m - 1] == c[m - 1 + k]);
        assert(k == 0);
        assert(r[0] == c[0]);
        assert(g.edge(r[m - 1], r[0]));
    } else {
        assert(r[m - 1] == c[k - 1]);
        assert(r[0] == c[k]);
        assert(g.edge(c[k - 1], c[k]));
    }
}

/// The breadth-first parent structure: the pivot has distance zero, and
/// every other discovered vertex has a discovered parent one step closer,
/// joined to it by an edge, with both inside the restriction.
pub open spec fn bfs_parent_inv(
    g: SdGraph,
    rs: VertexSet,
    pivot: int,
    dist: Seq<Option<usize>>,
    parent: Seq<Option<VariableId>>,
) -> bool {
    &&& dist.len() == g.n()
    &&& parent.len() == g.n()
    &&& 0 <= pivot < g.n()
    &&& dist[pivot] == Some(0usize)
    &&& forall|v: int|
        0 <= v < g.n() && (#[trigger] dist[v]) is Some && v != pivot ==> dist[v].unwrap() >= 1
            && (#[trigger] parent[v]) is Some && parent[v].unwrap().0 < g.n()
            && dist[parent[v].unwrap().0 as int] is Some && dist[parent[v].unwrap().0
            as int].unwrap() + 1 == dist[v].unwrap() && g.edge(parent[v].unwrap().0 as int, v)
            && rs.has(v) && rs.has(parent[v].unwrap().0 as int)
}

impl SdGraph {
    /// The shortest simple cycle through `pivot` inside `restriction`, of
    /// length at most `upper_bound`, or `None` when there is no such cycle.
    /// A returned cycle starts at the pivot, and no cycle through the pivot
    /// inside the restriction is shorter.
    #[verifier::loop_isolation(false)]
    #[verifier::rlimit(100)]
    pub fn shortest_cycle(
        &self,
        restriction: &VertexSet,
        pivot: VariableId,
        upper_bound: usize,
    ) -> (r: Option<Vec<VariableId>>)
        requires
            self.wf(),
            restriction.n() == self.n(),
            pivot.0 < self.n(),
        ensures
            match r {
                Some(c) => {
                    &&& c@.len() >= 1
                    &&& c@[0] == pivot
                    &&& c@.len() <= upper_bound
                    &&& is_cycle(*self, *restriction, ids_of(c@))
                    &&& forall|c2: Seq<int>|
                        is_cycle(*self, *restriction, c2) && #[trigger] c2.contains(
                            pivot.0 as int,
                        ) ==> c2.len() >= c@.len()
                },
                None => forall|c2: Seq<int>|
                    is_cycle(*self, *restriction, c2) && #[trigger] c2.contains(pivot.0 as int)
                        ==> c2.len() > upper_bound,
            },
    {
        let n = self.successors.len();
        if !restriction.contains(pivot) {
            proof {
                assert forall|c2: Seq<int>|
                    is_cycle(*self, *restriction, c2) && #[trigger] c2.contains(pivot.0 as int)
                        implies c2.len() > upper_bound by {
                    let k = choose|k: int| 0 <= k < c2.len() && c2[k] == pivot.0 as int;
                    assert(restriction.has(c2[k]));
                }
            }
            return None;
        }
        let mut dist: Vec<Option<usize>> = Vec::new();
        let mut parent: Vec<Option<VariableId>> = Vec::new();
        let mut i: usize = 0;
        while i < n
            invariant
                i <= n,
                dist@.len() == i,
                parent@.len() == i,
                forall|v: int| 0 <= v < i ==> (#[trigger] dist@[v]) is None,
                forall|v: int| 0 <= v < i ==> (#[trigger] parent@[v]) is None,
            decreases n - i,
        {
            dist.push(None);
            parent.push(None);
            i = i + 1;
        }
        dist.set(pivot.0, Some(0));
        let mut queue: Vec<VariableId> = Vec::new();
        queue.push(pivot);
        proof {
            assert forall|v: int|
                0 <= v < n && (#[trigger] dist@[v]) is Some implies exists|i2: int|
                0 <= i2 < queue@.len() && (#[trigger] queue@[i2]).0 == v by {
                assert(v == pivot.0 as int);
                assert(queue@[0].0 == v);
            }
        }
        let mut head: usize = 0;
        while head < queue.len()
            invariant
                queue@.len() >= 1,
                queue@[0] == pivot,
                head <= queue@.len(),
                queue@.len() <= n,
                dist@.len() == n,
                parent@.len() == n,
                restriction.has(pivot.0 as int),
                dist@[pivot.0 as int] == Some(0usize),
                forall|i2: int, j2: int| 0 <= i2 < j2 < queue@.len() ==> queue@[i2] != queue@[j2],
                forall|i2: int| 0 <= i2 < queue@.len() ==> (#[trigger] queue@[i2]).0 < n,
                forall|i2: int|
                    0 <= i2 < queue@.len() ==> (#[trigger] dist@[queue@[i2].0 as int]) is Some
                        && dist@[queue@[i2].0 as int].unwrap() <= i2 && restriction.has(
                        queue@[i2].0 as int,
                    ),
                forall|v: int|
                    0 <= v < n && (#[trigger] dist@[v]) is Some ==> exists|i2: int|
                        0 <= i2 < queue@.len() && (#[trigger] queue@[i2]).0 == v,
                forall|i2: int, j2: int|
                    0 <= i2 <= j2 < queue@.len() ==> (#[trigger] dist@[queue@[i2].0 as int]).unwrap()
                        <= (#[trigger] dist@[queue@[j2].0 as int]).unwrap(),
                forall|i2: int|
                    head <= i2 < queue@.len() ==> (#[trigger] dist@[queue@[i2].0 as int]).unwrap()
                        <= dist@[queue@[head as int].0 as int].unwrap() + 1,
                bfs_parent_inv(*self, *restriction, pivot.0 as int, dist@, parent@),
                forall|i2: int, w: int|
                    0 <= i2 < head && #[trigger] self.edge(queue@[i2].0 as int, w) && restriction.has(
                        w,
                    ) ==> (#[trigger] dist@[w]) is Some && dist@[w].unwrap() <= dist@[queue@[i2].0
                        as int].unwrap() + 1,
                forall|i2: int|
                    0 <= i2 < head ==> !self.edge((#[trigger] queue@[i2]).0 as int, pivot.0 as int),
            decreases n - head,
        {
            let u = queue[head];
            let d = match dist[u.0] {
                Some(d) => d,
                None => {
                    proof {
                        assert(false);
                    }
                    unreached()
                },
            };
            if d >= upper_bound {
                proof {
                    assert forall|c2: Seq<int>|
                        is_cycle(*self, *restriction, c2) && #[trigger] c2.contains(
                            pivot.0 as int,
                        ) implies c2.len() > upper_bound by {
                        if c2.len() <= upper_bound {
                            let k = choose|k: int| 0 <= k < c2.len() && c2[k] == pivot.0 as int;
                            lemma_cycle_rotate(*self, *restriction, c2, k);
                            let c3 = c2.skip(k) + c2.take(k);
                            assert(head >= 1) by {
                                if head == 0 {
                                    assert(u == pivot && d == 0);
                                }
                            }
                            lemma_cycle_prefix_processed(
                                *self,
                                *restriction,
                                pivot.0 as int,
                                dist@,
                                queue@,
                                head as int,
                                d as int,
                                c3,
                                c3.len() - 1,
                            );
                            let i2 = choose|i2: int|
                                0 <= i2 < head && (#[trigger] queue@[i2]).0 == c3[c3.len() - 1]
                                    && dist@[c3[c3.len() - 1]] is Some && dist@[c3[c3.len()
                                    - 1]].unwrap() <= c3.len() - 1;
                            assert(self.edge(queue@[i2].0 as int, pivot.0 as int));
                        }
                    }
                }
                return None;
            }
            let row_len = self.successors[u.0].len();
            let mut back_edge = false;
            let mut idx: usize = 0;
            while idx < row_len
                invariant
                    idx <= row_len,
                    row_len == self.successors@[u.0 as int]@.len(),
                    u.0 < n,
                    back_edge ==> self.edge(u.0 as int, pivot.0 as int),
                    !back_edge ==> forall|i2: int|
                        0 <= i2 < idx ==> (#[trigger] self.successors@[u.0 as int]@[i2]).0.0
                            != pivot.0,
                decreases row_len - idx,
            {
                let entry = self.successors[u.0][idx];
                if entry.0.0 == pivot.0 {
                    back_edge = true;
                    proof {
                        assert(self.succ_edge(u.0 as int, pivot.0 as int, entry.1)) by {
                            assert((#[trigger] self.successors@[u.0 as int]@[idx as int]).0.0
                                == pivot.0 && self.successors@[u.0 as int]@[idx as int].1
                                == entry.1);
                        }
                    }
                }
                idx = idx + 1;
            }
            if back_edge {
                let c = self.reconstruct_cycle(restriction, pivot, &dist, &parent, u, d);
                proof {
                    assert forall|c2: Seq<int>|
                        is_cycle(*self, *restriction, c2) && #[trigger] c2.contains(
                            pivot.0 as int,
                        ) implies c2.len() >= c@.len() by {
                        if c2.len() < c@.len() {
                            let k2 = choose|k2: int| 0 <= k2 < c2.len() && c2[k2] == pivot.0 as int;
                            lemma_cycle_rotate(*self, *restriction, c2, k2);
                            let c3 = c2.skip(k2) + c2.take(k2);
                            assert(c3.len() <= d);
                            assert(head >= 1) by {
                                if head == 0 {
                                    assert(u == pivot && d == 0);
                                    assert(c2.len() < 1);
                                }
                            }
                            lemma_cycle_prefix_processed(
                                *self,
                                *restriction,
                                pivot.0 as int,
                                dist@,
                                queue@,
                                head as int,
                                d as int,
                                c3,
                                c3.len() - 1,
                            );
                            let i2 = choose|i2: int|
                                0 <= i2 < head && (#[trigger] queue@[i2]).0 == c3[c3.len() - 1]
                                    && dist@[c3[c3.len() - 1]] is Some && dist@[c3[c3.len()
                                    - 1]].unwrap() <= c3.len() - 1;
                            assert(self.edge(queue@[i2].0 as int, pivot.0 as int));
                        }
                    }
                }
                return Some(c);
            }
            // expand the frontier from u
            let mut idx2: usize = 0;
            let ghost gqueue = queue@;
            while idx2 < row_len
                invariant
                    idx2 <= row_len,
                    row_len == self.successors@[u.0 as int]@.len(),
                    u.0 < n,
                    u == queue@[head as int],
                    head < queue@.len(),
                    queue@.len() <= n,
                    queue@[0] == pivot,
                    dist@.len() == n,
                    parent@.len() == n,
                    restriction.has(pivot.0 as int),
                    dist@[pivot.0 as int] == Some(0usize),
                    dist@[u.0 as int] == Some(d),
                    d < n,
                    forall|i2: int, j2: int|
                        0 <= i2 < j2 < queue@.len() ==> queue@[i2] != queue@[j2],
                    forall|i2: int| 0 <= i2 < queue@.len() ==> (#[trigger] queue@[i2]).0 < n,
                    forall|i2: int|
                        0 <= i2 < queue@.len() ==> (#[trigger] dist@[queue@[i2].0 as int]) is Some
                            && dist@[queue@[i2].0 as int].unwrap() <= i2 && restriction.has(
                            queue@[i2].0 as int,
                        ),
                    forall|v: int|
                        0 <= v < n && (#[trigger] dist@[v]) is Some ==> exists|i2: int|
                            0 <= i2 < queue@.len() && (#[trigger] queue@[i2]).0 == v,
                    forall|i2: int, j2: int|
                        0 <= i2 <= j2 < queue@.len() ==> (#[trigger] dist@[queue@[i2].0
                            as int]).unwrap() <= (#[trigger] dist@[queue@[j2].0 as int]).unwrap(),
                    forall|i2: int|
                        head <= i2 < queue@.len() ==> (#[trigger] dist@[queue@[i2].0
                            as int]).unwrap() <= d + 1,
                    bfs_parent_inv(*self, *restriction, pivot.0 as int, dist@, parent@),
                    forall|i2: int, w: int|
                        0 <= i2 < head && #[trigger] self.edge(queue@[i2].0 as int, w)
                            && restriction.has(w) ==> (#[trigger] dist@[w]) is Some
                            && dist@[w].unwrap() <= dist@[queue@[i2].0 as int].unwrap() + 1,
                    forall|i2: int|
                        0 <= i2 < head ==> !self.edge(
                            (#[trigger] queue@[i2]).0 as int,
                            pivot.0 as int,
                        ),
                    forall|i2: int|
                        0 <= i2 < idx2 && restriction.has(
                            (#[trigger] self.successors@[u.0 as int]@[i2]).0.0 as int,
                        ) ==> dist@[self.successors@[u.0 as int]@[i2].0.0 as int] is Some
                            && dist@[self.successors@[u.0 as int]@[i2].0.0 as int].unwrap() <= d
                            + 1,
                decreases row_len - idx2,
            {
                let entry = self.successors[u.0][idx2];
                let w = entry.0;
                proof {
                    assert(self.succ_edge(u.0 as int, w.0 as int, entry.1)) by {
                        assert((#[trigger] self.successors@[u.0 as int]@[idx2 as int]).0.0 == w.0
                            && self.successors@[u.0 as int]@[idx2 as int].1 == entry.1);
                    }
                    assert(w.0 < n);
                }
                let discovered = match dist[w.0] {
                    Some(_) => true,
                    None => false,
                };
                if restriction.contains(w) && !discovered {
                    let ghost prev_dist = dist@;
                    dist.set(w.0, Some(d + 1));
                    parent.set(w.0, Some(u));
                    let ghost prevq = queue@;
                    queue.push(w);
                    proof {
                        assert forall|i3: int, j3: int|
                            0 <= i3 < j3 < queue@.len() implies queue@[i3] != queue@[j3] by {
                            if j3 == queue@.len() - 1 {
                                if prevq[i3].0 == w.0 {
                                    assert(prev_dist[prevq[i3].0 as int] is Some);
                                }
                            } else {
                                assert(queue@[i3] == prevq[i3] && queue@[j3] == prevq[j3]);
                            }
                        }
                        let qids = Seq::new(queue@.len(), |i3: int| queue@[i3].0 as int);
                        assert forall|q1: int, q2: int|
                            0 <= q1 < q2 < qids.len() implies qids[q1] != qids[q2] by {
                            assert(queue@[q1] != queue@[q2]);
                        }
                        assert(forall|q: int|
                            0 <= q < qids.len() ==> 0 <= #[trigger] qids[q] < n);
                        lemma_distinct_bounded(qids, n as int);
                        assert(queue@.len() <= n);
                        assert(dist@[queue@[queue@.len() - 1].0 as int] == Some((d + 1) as usize));
                        assert forall|i3: int, j3: int|
                            0 <= i3 <= j3 < queue@.len() implies (#[trigger] dist@[queue@[i3].0
                            as int]).unwrap() <= (#[trigger] dist@[queue@[j3].0
                            as int]).unwrap() by {
                            if j3 == queue@.len() - 1 {
                                if i3 < j3 {
                                    assert(queue@[i3] == prevq[i3]);
                                    if i3 < head {
                                        assert(prev_dist[prevq[i3].0 as int].unwrap()
                                            <= prev_dist[prevq[head as int].0 as int].unwrap());
                                    }
                                }
                            }
                        }
                        assert forall|v: int|
                            0 <= v < n && (#[trigger] dist@[v]) is Some implies exists|i3: int|
                            0 <= i3 < queue@.len() && (#[trigger] queue@[i3]).0 == v by {
                            if v == w.0 {
                                assert(queue@[prevq.len() as int].0 == v);
                            } else {
                                let i3 = choose|i3: int|
                                    0 <= i3 < prevq.len() && (#[trigger] prevq[i3]).0 == v;
                                assert(queue@[i3].0 == v);
                            }
                        }
                    }
                }
                idx2 = idx2 + 1;
            }
            proof {
                assert forall|i2: int, w: int|
                    0 <= i2 < head + 1 && #[trigger] self.edge(queue@[i2].0 as int, w)
                        && restriction.has(w) implies (#[trigger] dist@[w]) is Some
                    && dist@[w].unwrap() <= dist@[queue@[i2].0 as int].unwrap() + 1 by {
                    if i2 == head {
                        let s = choose|s: crate::network::Sign|
                            self.succ_edge(u.0 as int, w, s);
                        let ei = choose|ei: int|
                            0 <= ei < self.successors@[u.0 as int]@.len() && (
                            #[trigger] self.successors@[u.0 as int]@[ei]).0.0 == w
                                && self.successors@[u.0 as int]@[ei].1 == s;
                        assert(restriction.has(
                            (self.successors@[u.0 as int]@[ei]).0.0 as int,
                        ));
                    }
                }
                assert forall|i2: int|
                    0 <= i2 < head + 1 implies !self.edge(
                    (#[trigger] queue@[i2]).0 as int,
                    pivot.0 as int,
                ) by {
                    if i2 == head {
                        if self.edge(u.0 as int, pivot.0 as int) {
                            let s = choose|s: crate::network::Sign|
                                self.succ_edge(u.0 as int, pivot.0 as int, s);
                            let ei = choose|ei: int|
                                0 <= ei < self.successors@[u.0 as int]@.len() && (
                                #[trigger] self.successors@[u.0 as int]@[ei]).0.0 == pivot.0
                                    && self.successors@[u.0 as int]@[ei].1 == s;
                            assert((self.successors@[u.0 as int]@[ei]).0.0 == pivot.0);
                            assert(false);
                        }
                    }
                }
            }
            head = head + 1;
        }
        proof {
            assert forall|c2: Seq<int>|
                is_cycle(*self, *restriction, c2) && #[trigger] c2.contains(pivot.0 as int)
                    implies c2.len() > upper_bound by {
                let k = choose|k: int| 0 <= k < c2.len() && c2[k] == pivot.0 as int;
                lemma_cycle_rotate(*self, *restriction, c2, k);
                let c3 = c2.skip(k) + c2.take(k);
                assert(head >= 1);
                assert(c3.len() <= n) by {
                    assert(forall|q1: int, q2: int|
                        0 <= q1 < q2 < c3.len() ==> c3[q1] != c3[q2]);
                    lemma_distinct_bounded(c3, n as int);
                }
                lemma_cycle_prefix_processed(
                    *self,
                    *restriction,
                    pivot.0 as int,
                    dist@,
                    queue@,
                    head as int,
                    n as int,
                    c3,
                    c3.len() - 1,
                );
                let i2 = choose|i2: int|
                    0 <= i2 < head && (#[trigger] queue@[i2]).0 == c3[c3.len() - 1]
                        && dist@[c3[c3.len() - 1]] is Some && dist@[c3[c3.len() - 1]].unwrap()
                        <= c3.len() - 1;
                assert(self.edge(queue@[i2].0 as int, pivot.0 as int));
            }
        }
        None
    }

    /// Rebuild the breadth-first parent chain from `u` back to the pivot and
    /// close it into a simple cycle with the back edge `u -> pivot`.
    #[verifier::loop_isolation(false)]
    #[verifier::rlimit(60)]
    fn reconstruct_cycle(
        &self,
        restriction: &VertexSet,
        pivot: VariableId,
        dist: &Vec<Option<usize>>,
        parent: &Vec<Option<VariableId>>,
        u: VariableId,
        d: usize,
    ) -> (c: Vec<VariableId>)
        requires
            self.wf(),
            restriction.n() == self.n(),
            pivot.0 < self.n(),
            restriction.has(pivot.0 as int),
            bfs_parent_inv(*self, *restriction, pivot.0 as int, dist@, parent@),
            u.0 < self.n(),
            dist@[u.0 as int] == Some(d),
            restriction.has(u.0 as int),
            self.edge(u.0 as int, pivot.0 as int),
        ensures
            c@.len() == d + 1,
            c@[0] == pivot,
            is_cycle(*self, *restriction, ids_of(c@)),
    {
        let n = self.successors.len();
        let mut path_rev: Vec<VariableId> = Vec::new();
        let mut x = u;
        let mut k = d;
        while k > 0
            invariant
                x.0 < n,
                dist@[x.0 as int] == Some(k),
                restriction.has(x.0 as int),
                k <= d,
                path_rev@.len() == d - k,
                forall|t: int|
                    0 <= t < path_rev@.len() ==> (#[trigger] path_rev@[t]).0 < n
                        && dist@[path_rev@[t].0 as int] == Some((d - t) as usize)
                        && restriction.has(path_rev@[t].0 as int),
                forall|t: int|
                    0 <= t < path_rev@.len() - 1 ==> self.edge(
                        (#[trigger] path_rev@[t + 1]).0 as int,
                        path_rev@[t].0 as int,
                    ),
                path_rev@.len() > 0 ==> self.edge(
                    x.0 as int,
                    path_rev@[path_rev@.len() - 1].0 as int,
                ),
                path_rev@.len() > 0 ==> path_rev@[0] == u,
                k == d ==> x == u,
            decreases k,
        {
            path_rev.push(x);
            let px = match parent[x.0] {
                Some(px) => px,
                None => {
                    proof {
                        assert(x.0 != pivot.0 ==> parent@[x.0 as int] is Some);
                        assert(x.0 == pivot.0 ==> dist@[x.0 as int] == Some(0usize));
                        assert(false);
                    }
                    unreached()
                },
            };
            x = px;
            k = k - 1;
        }
        proof {
            assert(x.0 == pivot.0) by {
                if x.0 != pivot.0 {
                    assert(dist@[x.0 as int].unwrap() >= 1);
                }
            }
        }
        let mut c: Vec<VariableId> = Vec::new();
        c.push(x);
        let mut t = path_rev.len();
        while t > 0
            invariant
                t <= path_rev@.len(),
                path_rev@.len() == d,
                c@.len() == 1 + (d - t),
                c@[0].0 == pivot.0,
                forall|q: int|
                    0 <= q < c@.len() ==> (#[trigger] c@[q]).0 < n && dist@[c@[q].0 as int]
                        == Some(q as usize) && restriction.has(c@[q].0 as int),
                forall|q: int|
                    0 <= q < c@.len() - 1 ==> self.edge(
                        (#[trigger] c@[q]).0 as int,
                        c@[q + 1].0 as int,
                    ),
                forall|t2: int|
                    0 <= t2 < path_rev@.len() ==> (#[trigger] path_rev@[t2]).0 < n
                        && dist@[path_rev@[t2].0 as int] == Some((d - t2) as usize)
                        && restriction.has(path_rev@[t2].0 as int),
                forall|t2: int|
                    0 <= t2 < path_rev@.len() - 1 ==> self.edge(
                        (#[trigger] path_rev@[t2 + 1]).0 as int,
                        path_rev@[t2].0 as int,
                    ),
                t > 0 ==> self.edge(c@[c@.len() - 1].0 as int, path_rev@[t - 1].0 as int),
                t == 0 && d > 0 ==> c@[c@.len() - 1] == u,
                d == 0 ==> c@[c@.len() - 1].0 == pivot.0,
            decreases t,
        {
            t = t - 1;
            let y = path_rev[t];
            proof {
                if t > 0 {
                    let ghost t2 = t as int - 1;
                    assert(self.edge(
                        (path_rev@[t2 + 1]).0 as int,
                        path_rev@[t2].0 as int,
                    ));
                }
            }
            c.push(y);
        }
        proof {
            let cv = ids_of(c@);
            assert(cv.len() == c@.len());
            assert(forall|q: int| 0 <= q < cv.len() ==> #[trigger] cv[q] == c@[q].0 as int);
            assert(c@[c@.len() - 1].0 == u.0) by {
                if d > 0 {
                    assert(c@[c@.len() - 1] == u);
                } else {
                    assert(u.0 == pivot.0) by {
                        if u.0 != pivot.0 {
                            assert(dist@[u.0 as int].unwrap() >= 1);
                        }
                    }
                }
            }
            assert(is_cycle(*self, *restriction, cv)) by {
                assert forall|q1: int, q2: int| 0 <= q1 < q2 < cv.len() implies cv[q1]
                    != cv[q2] by {
                    assert(dist@[c@[q1].0 as int] == Some(q1 as usize));
                    assert(dist@[c@[q2].0 as int] == Some(q2 as usize));
                }
                assert forall|q: int| 0 <= q < cv.len() - 1 implies self.edge(
                    #[trigger] cv[q],
                    cv[q + 1],
                ) by {
                    assert(self.edge(c@[q].0 as int, c@[q + 1].0 as int));
                }
                assert(self.edge(cv[cv.len() - 1], cv[0]));
            }
        }
        c
    }
}

/// A sequence of distinct integers drawn from `[0, n)` has length at most
/// `n`.
pub proof fn lemma_distinct_bounded(c: Seq<int>, n: int)
    requires
        forall|q1: int, q2: int| 0 <= q1 < q2 < c.len() ==> c[q1] != c[q2],
        forall|q: int| 0 <= q < c.len() ==> 0 <= #[trigger] c[q] < n,
        n >= 0,
    ensures
        c.len() <= n,
    decreases n,
{
    if c.len() > n {
        if n == 0 {
            assert(0 <= c[0] < n);
        } else {
            // remove every occurrence of n - 1 (there is at most one)
            if exists|q: int| 0 <= q < c.len() && c[q] == n - 1 {
                let q0 = choose|q: int| 0 <= q < c.len() && c[q] == n - 1;
                let c2 = c.remove(q0);
                assert forall|q: int| 0 <= q < c2.len() implies 0 <= #[trigger] c2[q] < n - 1 by {
                    if q < q0 {
                        assert(c2[q] == c[q]);
                        assert(c[q] != n - 1);
                    } else {
                        assert(c2[q] == c[q + 1]);
                        assert(c[q + 1] != n - 1);
                    }
                }
                assert forall|q1: int, q2: int| 0 <= q1 < q2 < c2.len() implies c2[q1] != c2[q2] by {
                    let a1 = if q1 < q0 {
                        q1
                    } else {
                        q1 + 1
                    };
                    let a2 = if q2 < q0 {
                        q2
                    } else {
                        q2 + 1
                    };
                    assert(c2[q1] == c[a1] && c2[q2] == c[a2]);
                }
                lemma_distinct_bounded(c2, n - 1);
            } else {
                assert forall|q: int| 0 <= q < c.len() implies 0 <= #[trigger] c[q] < n - 1 by {
                    assert(c[q] != n - 1);
                }
                lemma_distinct_bounded(c, n - 1);
            }
        }
    }
}

} // verus!
