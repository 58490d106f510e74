//! Restricted reachability over the signed directed graph: forward and
//! backward reachable sets by frontier expansion, with exact contracts over
//! walks, and the monotonicity of reachability in the seed set.

use vstd::prelude::*;
use crate::network::VariableId;
use crate::sd_graph::SdGraph;
use crate::sd_graph::is_walk;
use crate::vset::VertexSet;
use crate::vset::lemma_count_true_update;
use crate::vset::lemma_count_le_len;

verus! {

/// Some vertex of `seeds` reaches `v` by a walk inside `rs`.
pub open spec fn reaches_from(g: SdGraph, rs: VertexSet, seeds: VertexSet, v: int) -> bool {
    exists|p: Seq<int>| #[trigger] is_walk(g, rs, p) && seeds.has(p[0]) && p.last() == v
}

/// `v` reaches some vertex of `seeds` by a walk inside `rs`.
pub open spec fn reaches_to(g: SdGraph, rs: VertexSet, seeds: VertexSet, v: int) -> bool {
    exists|p: Seq<int>| #[trigger] is_walk(g, rs, p) && p[0] == v && seeds.has(p.last())
}

/// Extending a walk by one successor edge yields a walk.
pub proof fn lemma_walk_extend(g: SdGraph, rs: VertexSet, p: Seq<int>, w: int)
    requires
        is_walk(g, rs, p),
        g.edge(p.last(), w),
        rs.has(w),
        0 <= w < g.n(),
    ensures
        is_walk(g, rs, p.push(w)),
        p.push(w)[0] == p[0],
        p.push(w).last() == w,
{
    let q = p.push(w);
    assert forall|i: int| 0 <= i < q.len() - 1 implies g.edge(#[trigger] q[i], q[i + 1]) by {
        if i < p.len() - 1 {
            assert(q[i] == p[i] && q[i + 1] == p[i + 1]);
        } else {
            assert(q[i] == p.last() && q[i + 1] == w);
        }
    }
}

/// Prefixing a walk by one predecessor edge yields a walk.
pub proof fn lemma_walk_prepend(g: SdGraph, rs: VertexSet, w: int, p: Seq<int>)
    requires
        is_walk(g, rs, p),
        g.edge(w, p[0]),
        rs.has(w),
        0 <= w < g.n(),
    ensures
        is_walk(g, rs, seq![w] + p),
        (seq![w] + p)[0] == w,
        (seq![w] + p).last() == p.last(),
{
    let q = seq![w] + p;
    assert forall|i: int| 0 <= i < q.len() - 1 implies g.edge(#[trigger] q[i], q[i + 1]) by {
        if i == 0 {
            assert(q[0] == w && q[1] == p[0]);
        } else {
            assert(q[i] == p[i - 1] && q[i + 1] == p[i]);
        }
    }
}

/// A set closed under successor steps inside `rs` contains the end of every
/// walk that starts inside it.
pub proof fn lemma_closed_fwd(g: SdGraph, rs: VertexSet, vis: VertexSet, p: Seq<int>)
    requires
        is_walk(g, rs, p),
        vis.has(p[0]),
        forall|u: int, w: int|
            vis.has(u) && #[trigger] g.edge(u, w) && rs.has(w) ==> #[trigger] vis.has(w),
    ensures
        vis.has(p.last()),
    decreases p.len(),
{
    if p.len() > 1 {
        let q = p.drop_last();
        assert(is_walk(g, rs, q));
        lemma_closed_fwd(g, rs, vis, q);
        assert(g.edge(p[p.len() - 2], p[p.len() - 1]));
    }
}

/// A set closed under predecessor steps inside `rs` contains the start of
/// every walk that ends inside it.
pub proof fn lemma_closed_bwd(g: SdGraph, rs: VertexSet, vis: VertexSet, p: Seq<int>)
    requires
        is_walk(g, rs, p),
        vis.has(p.last()),
        forall|u: int, w: int|
            vis.has(w) && #[trigger] g.edge(u, w) && rs.has(u) ==> #[trigger] vis.has(u),
    ensures
        vis.has(p[0]),
    decreases p.len(),
{
    if p.len() > 1 {
        let q = p.skip(1);
        assert(is_walk(g, rs, q)) by {
            assert forall|i: int| 0 <= i < q.len() - 1 implies g.edge(#[trigger] q[i], q[i + 1]) by {
                assert(q[i] == p[i + 1] && q[i + 1] == p[i + 2]);
            }
        }
        assert(q.last() == p.last());
        lemma_closed_bwd(g, rs, vis, q);
        assert(g.edge(p[0], p[1]));
        assert(vis.has(q[0]));
    }
}

/// Whether the vertex `u` occurs on the stack.
pub open spec fn stack_has(st: Seq<VariableId>, u: int) -> bool {
    exists|i: int| 0 <= i < st.len() && (#[trigger] st[i]).0 == u
}

impl SdGraph {
    /// The set of vertices reachable from `initial` by walks inside
    /// `restriction`, following successor edges. A seed outside the
    /// restriction is not part of the result.
    #[verifier::loop_isolation(false)]
    #[verifier::rlimit(60)]
    pub fn restricted_forward_reachable(
        &self,
        restriction: &VertexSet,
        initial: &VertexSet,
    ) -> (r: VertexSet)
        requires
            self.wf(),
            restriction.n() == self.n(),
            initial.n() == self.n(),
        ensures
            r.n() == self.n(),
            forall|v: int| #[trigger] r.has(v) <==> reaches_from(*self, *restriction, *initial, v),
    {
        let n = self.successors.len();
        let mut visited = VertexSet::empty(n);
        let mut visited_count: usize = 0;
        let mut stack: Vec<VariableId> = Vec::new();
        let mut v: usize = 0;
        while v < n
            invariant
                v <= n,
                visited.n() == n,
                visited_count == visited.size(),
                visited_count <= n,
                forall|i: int|
                    0 <= i < stack@.len() ==> visited.has((#[trigger] stack@[i]).0 as int) && (
                    stack@[i]).0 < n,
                forall|u: int|
                    #[trigger] visited.has(u) ==> reaches_from(*self, *restriction, *initial, u),
                forall|u: int|
                    0 <= u < v && initial.has(u) && restriction.has(u) ==> visited.has(u),
                forall|u: int| #[trigger] visited.has(u) ==> stack_has(stack@, u),
            decreases n - v,
        {
            if initial.contains(VariableId(v)) && restriction.contains(VariableId(v))
                && !visited.contains(VariableId(v)) {
                proof {
                    lemma_count_true_update(visited.member@, v as int);
                    lemma_count_le_len(visited.member@.update(v as int, true));
                    let p = seq![v as int];
                    assert(is_walk(*self, *restriction, p));
                    assert(reaches_from(*self, *restriction, *initial, v as int));
                }
                visited.insert(VariableId(v));
                visited_count = visited_count + 1;
                let ghost prevst = stack@;
                stack.push(VariableId(v));
                proof {
                    assert forall|u: int| #[trigger] visited.has(u) implies stack_has(
                        stack@,
                        u,
                    ) by {
                        if u == v {
                            assert(stack@[prevst.len() as int].0 == u);
                        } else {
                            let i = choose|i: int|
                                0 <= i < prevst.len() && (#[trigger] prevst[i]).0 == u;
                            assert(stack@[i].0 == u);
                        }
                    }
                }
            }
            v = v + 1;
        }
        while stack.len() > 0
            invariant
                visited.n() == n,
                visited_count == visited.size(),
                visited_count <= n,
                forall|i: int|
                    0 <= i < stack@.len() ==> visited.has((#[trigger] stack@[i]).0 as int) && (
                    stack@[i]).0 < n,
                forall|u: int|
                    #[trigger] visited.has(u) ==> reaches_from(*self, *restriction, *initial, u),
                forall|u: int| initial.has(u) && restriction.has(u) ==> #[trigger] visited.has(u),
                forall|u: int, w: int|
                    visited.has(u) && !stack_has(stack@, u) && #[trigger] self.edge(u, w)
                        && restriction.has(w) ==> #[trigger] visited.has(w),
            decreases (n - visited_count) * (n + 1) + stack@.len(),
        {
            let ghost old_count = visited_count;
            let ghost popped = stack@;
            let u = stack.pop().unwrap();
            proof {
                assert forall|q: int, w: int|
                    visited.has(q) && q != u.0 && !stack_has(stack@, q) && #[trigger] self.edge(
                        q,
                        w,
                    ) && restriction.has(w) implies #[trigger] visited.has(w) by {
                    assert(!stack_has(popped, q)) by {
                        if stack_has(popped, q) {
                            let i = choose|i: int|
                                0 <= i < popped.len() && (#[trigger] popped[i]).0 == q;
                            if i < popped.len() - 1 {
                                assert(stack@[i].0 == q);
                            }
                        }
                    }
                }
            }
            let row_len = self.successors[u.0].len();
            let mut idx: usize = 0;
            while idx < row_len
                invariant
                    idx <= row_len,
                    row_len == self.successors@[u.0 as int]@.len(),
                    u.0 < n,
                    visited.n() == n,
                    visited.has(u.0 as int),
                    visited_count == visited.size(),
                    visited_count <= n,
                    visited_count >= old_count,
                    stack@.len() <= popped.len() - 1 + idx,
                    visited_count - old_count >= stack@.len() - (popped.len() - 1),
                    forall|i: int|
                        0 <= i < stack@.len() ==> visited.has((#[trigger] stack@[i]).0 as int)
                            && (stack@[i]).0 < n,
                    forall|q: int|
                        #[trigger] visited.has(q) ==> reaches_from(
                            *self,
                            *restriction,
                            *initial,
                            q,
                        ),
                    forall|q: int|
                        initial.has(q) && restriction.has(q) ==> #[trigger] visited.has(q),
                    forall|q: int, w: int|
                        visited.has(q) && q != u.0 && !stack_has(stack@, q) && #[trigger] self.edge(
                            q,
                            w,
                        ) && restriction.has(w) ==> #[trigger] visited.has(w),
                    forall|i2: int|
                        0 <= i2 < idx && restriction.has(
                            (#[trigger] self.successors@[u.0 as int]@[i2]).0.0 as int,
                        ) ==> visited.has(self.successors@[u.0 as int]@[i2].0.0 as int),
                decreases row_len - idx,
            {
                let entry = self.successors[u.0][idx];
                let w = entry.0;
                if restriction.contains(w) && !visited.contains(w) {
                    proof {
                        lemma_count_true_update(visited.member@, w.0 as int);
                        lemma_count_le_len(visited.member@.update(w.0 as int, true));
                        let s = entry.1;
                        assert(self.succ_edge(u.0 as int, w.0 as int, s)) by {
                            assert((#[trigger] self.successors@[u.0 as int]@[idx as int]).0.0
                                == w.0 && self.successors@[u.0 as int]@[idx as int].1 == s);
                        }
                        assert(self.edge(u.0 as int, w.0 as int));
                        let p = choose|p: Seq<int>|
                            #[trigger] is_walk(*self, *restriction, p) && initial.has(p[0])
                                && p.last() == u.0 as int;
                        lemma_walk_extend(*self, *restriction, p, w.0 as int);
                        assert(is_walk(*self, *restriction, p.push(w.0 as int)));
                        assert(reaches_from(*self, *restriction, *initial, w.0 as int));
                    }
                    visited.insert(w);
                    visited_count = visited_count + 1;
                    let ghost prevst = stack@;
                    stack.push(w);
                    proof {
                        assert(forall|i: int|
                            0 <= i < prevst.len() ==> stack@[i] == prevst[i]);
                        assert(stack@[prevst.len() as int] == w);
                        assert forall|q: int, w2: int|
                            visited.has(q) && q != u.0 && !stack_has(stack@, q)
                                && #[trigger] self.edge(q, w2) && restriction.has(w2)
                            implies #[trigger] visited.has(w2) by {
                            if q != w.0 {
                                assert(!stack_has(prevst, q)) by {
                                    if stack_has(prevst, q) {
                                        let i = choose|i: int|
                                            0 <= i < prevst.len() && (#[trigger] prevst[i]).0
                                                == q;
                                        assert(stack@[i].0 == q);
                                    }
                                }
                            } else {
                                assert(stack_has(stack@, q)) by {
                                    assert(stack@[prevst.len() as int].0 == q);
                                }
                            }
                        }
                    }
                }
                idx = idx + 1;
            }
            proof {
                let ghost cd = visited_count - old_count;
                assert((n - visited_count) * (n + 1) + stack@.len() < (n - old_count) * (n + 1)
                    + popped.len()) by (nonlinear_arith)
                    requires
                        visited_count == old_count + cd,
                        cd >= 0,
                        stack@.len() <= popped.len() - 1 + cd,
                        visited_count <= n,
                        old_count >= 0,
                        popped.len() >= 1,
                ;
                assert forall|q: int, w: int|
                    visited.has(q) && !stack_has(stack@, q) && #[trigger] self.edge(q, w)
                        && restriction.has(w) implies #[trigger] visited.has(w) by {
                    if q == u.0 {
                        let s = choose|s: crate::network::Sign| self.succ_edge(q, w, s);
                        let i = choose|i: int|
                            0 <= i < self.successors@[q]@.len() && (
                            #[trigger] self.successors@[q]@[i]).0.0 == w
                                && self.successors@[q]@[i].1 == s;
                        assert(restriction.has(
                            self.successors@[u.0 as int]@[i].0.0 as int,
                        ));
                    }
                }
                if visited_count == old_count {
                    assert(stack@.len() < popped.len());
                }
            }
        }
        proof {
            assert forall|q: int|
                reaches_from(*self, *restriction, *initial, q) implies #[trigger] visited.has(
                q,
            ) by {
                let p = choose|p: Seq<int>|
                    #[trigger] is_walk(*self, *restriction, p) && initial.has(p[0]) && p.last()
                        == q;
                assert(visited.has(p[0]));
                lemma_closed_fwd(*self, *restriction, visited, p);
            }
        }
        visited
    }

}

/// Reachability from a smaller seed set implies reachability from a larger
/// one: for `S` a subset of `S2`, everything forward reachable from `S` is
/// forward reachable from `S2`.
pub proof fn lemma_forward_reachable_monotone(
    g: SdGraph,
    rs: VertexSet,
    s1: VertexSet,
    s2: VertexSet,
)
    requires
        forall|v: int| s1.has(v) ==> s2.has(v),
    ensures
        forall|v: int|
            #[trigger] reaches_from(g, rs, s1, v) ==> reaches_from(g, rs, s2, v),
{
    assert forall|v: int|
        #[trigger] reaches_from(g, rs, s1, v) implies reaches_from(g, rs, s2, v) by {
        let p = choose|p: Seq<int>|
            #[trigger] is_walk(g, rs, p) && s1.has(p[0]) && p.last() == v;
        assert(is_walk(g, rs, p) && s2.has(p[0]) && p.last() == v);
    }
}


/// The reversal of a vertex sequence.
pub open spec fn rev_seq(p: Seq<int>) -> Seq<int> {
    Seq::new(p.len(), |i: int| p[p.len() - 1 - i])
}

impl SdGraph {
    /// The transpose graph: every edge reversed, signs kept.
    #[verifier::loop_isolation(false)]
    pub fn transpose(&self) -> (r: SdGraph)
        requires
            self.wf(),
        ensures
            r.wf(),
            r.n() == self.n(),
            forall|u: int, v: int, s: crate::network::Sign|
                #[trigger] r.succ_edge(u, v, s) <==> self.succ_edge(v, u, s),
    {
        let n = self.successors.len();
        let mut successors: Vec<Vec<(VariableId, crate::network::Sign)>> = Vec::new();
        let mut predecessors: Vec<Vec<(VariableId, crate::network::Sign)>> = Vec::new();
        let mut u: usize = 0;
        while u < n
            invariant
                u <= n,
                successors@.len() == u,
                predecessors@.len() == u,
                forall|w: int|
                    0 <= w < u ==> (#[trigger] successors@[w])@ == self.predecessors@[w]@,
                forall|w: int|
                    0 <= w < u ==> (#[trigger] predecessors@[w])@ == self.successors@[w]@,
            decreases n - u,
        {
            let srow = copy_row(&self.predecessors[u]);
            let prow = copy_row(&self.successors[u]);
            successors.push(srow);
            predecessors.push(prow);
            u = u + 1;
        }
        let r = SdGraph { successors, predecessors };
        proof {
            assert forall|a: int, b: int, s: crate::network::Sign|
                #[trigger] r.succ_edge(a, b, s) <==> self.pred_edge(b, a, s) by {
                if 0 <= a < n {
                    assert(r.successors@[a]@ == self.predecessors@[a]@);
                }
            }
            assert forall|a: int, b: int, s: crate::network::Sign|
                #[trigger] r.pred_edge(a, b, s) <==> self.succ_edge(b, a, s) by {
                if 0 <= b < n {
                    assert(r.predecessors@[b]@ == self.successors@[b]@);
                }
            }
            assert forall|a: int, i: int|
                0 <= a < n && 0 <= i < r.successors@[a]@.len() implies (
            #[trigger] r.successors@[a]@[i]).0.0 < n by {
                assert(r.successors@[a]@[i] == self.predecessors@[a]@[i]);
            }
            assert forall|a: int, i: int|
                0 <= a < n && 0 <= i < r.predecessors@[a]@.len() implies (
            #[trigger] r.predecessors@[a]@[i]).0.0 < n by {
                assert(r.predecessors@[a]@[i] == self.successors@[a]@[i]);
            }
        }
        r
    }

    /// The set of vertices that reach `initial` by walks inside
    /// `restriction`, following predecessor edges. A seed outside the
    /// restriction is not part of the result.
    pub fn restricted_backward_reachable(
        &self,
        restriction: &VertexSet,
        initial: &VertexSet,
    ) -> (r: VertexSet)
        requires
            self.wf(),
            restriction.n() == self.n(),
            initial.n() == self.n(),
        ensures
            r.n() == self.n(),
            forall|v: int| #[trigger] r.has(v) <==> reaches_to(*self, *restriction, *initial, v),
    {
        let t = self.transpose();
        let r = t.restricted_forward_reachable(restriction, initial);
        proof {
            assert forall|v: int|
                #[trigger] r.has(v) <==> reaches_to(*self, *restriction, *initial, v) by {
                if r.has(v) {
                    let p = choose|p: Seq<int>|
                        #[trigger] is_walk(t, *restriction, p) && initial.has(p[0]) && p.last()
                            == v;
                    lemma_walk_reverse(t, *self, *restriction, p);
                    assert(is_walk(*self, *restriction, rev_seq(p)) && rev_seq(p)[0] == v
                        && initial.has(rev_seq(p).last()));
                }
                if reaches_to(*self, *restriction, *initial, v) {
                    let p = choose|p: Seq<int>|
                        #[trigger] is_walk(*self, *restriction, p) && p[0] == v && initial.has(
                            p.last(),
                        );
                    lemma_walk_reverse(*self, t, *restriction, p);
                    assert(is_walk(t, *restriction, rev_seq(p)) && initial.has(rev_seq(p)[0])
                        && rev_seq(p).last() == v);
                    assert(reaches_from(t, *restriction, *initial, v));
                }
            }
        }
        r
    }
}

/// Duplicate one adjacency row.
fn copy_row(row: &Vec<(VariableId, crate::network::Sign)>) -> (r: Vec<
    (VariableId, crate::network::Sign),
>)
    ensures
        r@ == row@,
{
    let m = row.len();
    let mut r: Vec<(VariableId, crate::network::Sign)> = Vec::new();
    let mut i: usize = 0;
    while i < m
        invariant
            m == row@.len(),
            i <= m,
            r@.len() == i,
            forall|j: int| 0 <= j < i ==> r@[j] == row@[j],
        decreases m - i,
    {
        r.push(row[i]);
        i = i + 1;
    }
    proof {
        assert(r@ =~= row@);
    }
    r
}

/// A walk of one graph is, reversed, a walk of any graph whose edges are the
/// reversed edges.
pub proof fn lemma_walk_reverse(ga: SdGraph, gb: SdGraph, rs: VertexSet, p: Seq<int>)
    requires
        is_walk(ga, rs, p),
        ga.n() == gb.n(),
        forall|u: int, v: int, s: crate::network::Sign|
            #[trigger] ga.succ_edge(u, v, s) ==> gb.succ_edge(v, u, s),
    ensures
        is_walk(gb, rs, rev_seq(p)),
        rev_seq(p)[0] == p.last(),
        rev_seq(p).last() == p[0],
{
    let q = rev_seq(p);
    assert(q.len() == p.len());
    assert forall|i: int| 0 <= i < q.len() implies rs.has(#[trigger] q[i]) && 0 <= q[i]
        < gb.n() by {
        assert(q[i] == p[p.len() - 1 - i]);
        assert(rs.has(p[p.len() - 1 - i]));
    }
    assert forall|i: int| 0 <= i < q.len() - 1 implies gb.edge(#[trigger] q[i], q[i + 1]) by {
        let a = p[p.len() - 2 - i];
        let b = p[p.len() - 1 - i];
        assert(ga.edge(a, b));
        assert(q[i] == b && q[i + 1] == a);
        if ga.succ_edge(a, b, crate::network::Sign::Positive) {
            assert(gb.succ_edge(b, a, crate::network::Sign::Positive));
        } else {
            assert(ga.succ_edge(a, b, crate::network::Sign::Negative));
            assert(gb.succ_edge(b, a, crate::network::Sign::Negative));
        }
    }
}

} // verus!
