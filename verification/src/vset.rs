//! Dense vertex sets over a fixed universe `[0, n)`.

use vstd::prelude::*;
use crate::bdd::count_true;
use crate::network::VariableId;

verus! {

/// A set of vertices of an `n`-vertex graph, as a characteristic vector.
pub struct VertexSet {
    pub member: Vec<bool>,
}

impl VertexSet {
    /// The size of the universe.
    pub open spec fn n(self) -> nat {
        self.member@.len()
    }

    /// Membership of vertex `v`.
    pub open spec fn has(self, v: int) -> bool {
        0 <= v < self.member@.len() && self.member@[v]
    }

    /// Number of members.
    pub open spec fn size(self) -> nat {
        count_true(self.member@)
    }

    /// The empty set over universe `[0, n)`.
    pub fn empty(n: usize) -> (r: VertexSet)
        ensures
            r.n() == n,
            forall|v: int| !r.has(v),
            r.size() == 0,
    {
        let mut member: Vec<bool> = Vec::new();
        let mut i: usize = 0;
        while i < n
            invariant
                i <= n,
                member@.len() == i,
                forall|v: int| 0 <= v < i ==> !member@[v],
                count_true(member@) == 0,
            decreases n - i,
        {
            proof {
                assert(member@.push(false).drop_last() =~= member@);
            }
            member.push(false);
            i = i + 1;
        }
        VertexSet { member }
    }

    /// The full set over universe `[0, n)`.
    pub fn full(n: usize) -> (r: VertexSet)
        ensures
            r.n() == n,
            forall|v: int| r.has(v) <==> 0 <= v < n,
    {
        let mut member: Vec<bool> = Vec::new();
        let mut i: usize = 0;
        while i < n
            invariant
                i <= n,
                member@.len() == i,
                forall|v: int| 0 <= v < i ==> member@[v],
            decreases n - i,
        {
            member.push(true);
            i = i + 1;
        }
        VertexSet { member }
    }

    pub fn contains(&self, v: VariableId) -> (r: bool)
        requires
            v.0 < self.n(),
        ensures
            r == self.has(v.0 as int),
    {
        self.member[v.0]
    }

    pub fn insert(&mut self, v: VariableId)
        requires
            v.0 < old(self).n(),
        ensures
            final(self).n() == old(self).n(),
            forall|u: int| final(self).has(u) <==> (old(self).has(u) || u == v.0),
            final(self).member@ == old(self).member@.update(v.0 as int, true),
    {
        self.member.set(v.0, true);
    }

    pub fn remove(&mut self, v: VariableId)
        requires
            v.0 < old(self).n(),
        ensures
            final(self).n() == old(self).n(),
            forall|u: int| final(self).has(u) <==> (old(self).has(u) && u != v.0),
            final(self).member@ == old(self).member@.update(v.0 as int, false),
    {
        self.member.set(v.0, false);
    }

    /// An identical copy of this set.
    pub fn copied(&self) -> (r: VertexSet)
        ensures
            r.n() == self.n(),
            forall|v: int| r.has(v) <==> self.has(v),
            r.member@ == self.member@,
    {
        let n = self.member.len();
        let mut member: Vec<bool> = Vec::new();
        let mut i: usize = 0;
        while i < n
            invariant
                n == self.member@.len(),
                i <= n,
                member@.len() == i,
                forall|v: int| 0 <= v < i ==> member@[v] == self.member@[v],
            decreases n - i,
        {
            member.push(self.member[i]);
            i = i + 1;
        }
        proof {
            assert(member@ =~= self.member@);
        }
        VertexSet { member }
    }

    /// Number of members, executably.
    pub fn count(&self) -> (r: usize)
        ensures
            r == self.size(),
    {
        let n = self.member.len();
        let mut r: usize = 0;
        let mut i: usize = 0;
        while i < n
            invariant
                n == self.member@.len(),
                i <= n,
                r == count_true(self.member@.take(i as int)),
                r <= i,
            decreases n - i,
        {
            proof {
                assert(self.member@.take(i as int + 1).drop_last() =~= self.member@.take(
                    i as int,
                ));
            }
            if self.member[i] {
                r = r + 1;
            }
            i = i + 1;
        }
        proof {
            assert(self.member@.take(n as int) =~= self.member@);
        }
        r
    }

    /// The members, in ascending order.
    pub fn members(&self) -> (r: Vec<VariableId>)
        ensures
            forall|j: int| 0 <= j < r@.len() ==> self.has((#[trigger] r@[j]).0 as int),
            forall|j: int, k: int| 0 <= j < k < r@.len() ==> r@[j].0 < r@[k].0,
            forall|v: int| self.has(v) ==> exists|j: int| 0 <= j < r@.len() && (#[trigger] r@[j]).0 == v,
    {
        let n = self.member.len();
        let mut r: Vec<VariableId> = Vec::new();
        let mut i: usize = 0;
        while i < n
            invariant
                n == self.member@.len(),
                i <= n,
                forall|j: int| 0 <= j < r@.len() ==> self.has((#[trigger] r@[j]).0 as int),
                forall|j: int| 0 <= j < r@.len() ==> (#[trigger] r@[j]).0 < i,
                forall|j: int, k: int| 0 <= j < k < r@.len() ==> r@[j].0 < r@[k].0,
                forall|v: int|
                    0 <= v < i && self.has(v) ==> exists|j: int|
                        0 <= j < r@.len() && (#[trigger] r@[j]).0 == v,
            decreases n - i,
        {
            if self.member[i] {
                let ghost prev = r@;
                r.push(VariableId(i));
                proof {
                    assert forall|v: int|
                        0 <= v < i + 1 && self.has(v) implies exists|j: int|
                        0 <= j < r@.len() && (#[trigger] r@[j]).0 == v by {
                        if v == i {
                            assert(r@[prev.len() as int].0 == v);
                        } else {
                            let j = choose|j: int| 0 <= j < prev.len() && (#[trigger] prev[j]).0 == v;
                            assert(r@[j].0 == v);
                        }
                    }
                }
            }
            i = i + 1;
        }
        r
    }

    /// The intersection with another set over the same universe.
    pub fn intersect(&self, other: &VertexSet) -> (r: VertexSet)
        requires
            self.n() == other.n(),
        ensures
            r.n() == self.n(),
            forall|v: int| r.has(v) <==> (self.has(v) && other.has(v)),
    {
        let n = self.member.len();
        let mut member: Vec<bool> = Vec::new();
        let mut i: usize = 0;
        while i < n
            invariant
                n == self.member@.len(),
                n == other.member@.len(),
                i <= n,
                member@.len() == i,
                forall|v: int|
                    0 <= v < i ==> member@[v] == (self.member@[v] && other.member@[v]),
            decreases n - i,
        {
            let b = self.member[i] && other.member[i];
            member.push(b);
            i = i + 1;
        }
        VertexSet { member }
    }
}




/// A set counting exactly one true entry has no second one.
pub proof fn lemma_count_one_unique(s: Seq<bool>, i: int)
    requires
        count_true(s) == 1,
        0 <= i < s.len(),
        s[i],
    ensures
        forall|j: int| 0 <= j < s.len() && j != i ==> !s[j],
    decreases s.len(),
{
    if s.len() > 0 {
        if s.last() {
            assert(count_true(s.drop_last()) == 0);
            lemma_count_none(s.drop_last());
            if i < s.len() - 1 {
                assert(!s.drop_last()[i]);
                assert(s.drop_last()[i] == s[i]);
            }
            assert forall|j: int| 0 <= j < s.len() && j != i implies !s[j] by {
                assert(!s.drop_last()[j]);
            }
        } else {
            lemma_count_one_unique(s.drop_last(), i);
            assert forall|j: int| 0 <= j < s.len() && j != i implies !s[j] by {
                if j < s.len() - 1 {
                    assert(s[j] == s.drop_last()[j]);
                }
            }
        }
    }
}

/// An occupied entry makes the count positive.
pub proof fn lemma_count_pos(s: Seq<bool>, i: int)
    requires
        0 <= i < s.len(),
        s[i],
    ensures
        count_true(s) >= 1,
    decreases s.len(),
{
    if s.len() > 0 && !s.last() {
        lemma_count_pos(s.drop_last(), i);
    }
}

/// A set counting zero true entries has none.
pub proof fn lemma_count_none(s: Seq<bool>)
    requires
        count_true(s) == 0,
    ensures
        forall|j: int| 0 <= j < s.len() ==> !s[j],
    decreases s.len(),
{
    if s.len() > 0 {
        lemma_count_none(s.drop_last());
        assert forall|j: int| 0 <= j < s.len() implies !s[j] by {
            if j < s.len() - 1 {
                assert(s[j] == s.drop_last()[j]);
            }
        }
    }
}

/// Setting a false entry to true raises the count by one.
pub proof fn lemma_count_true_update(s: Seq<bool>, i: int)
    requires
        0 <= i < s.len(),
        !s[i],
    ensures
        count_true(s.update(i, true)) == count_true(s) + 1,
    decreases s.len(),
{
    if s.len() > 0 {
        if i == s.len() - 1 {
            assert(s.update(i, true).drop_last() =~= s.drop_last());
        } else {
            lemma_count_true_update(s.drop_last(), i);
            assert(s.update(i, true).drop_last() =~= s.drop_last().update(i, true));
        }
    }
}


/// Clearing a true entry lowers the count by one.
pub proof fn lemma_count_false_update(s: Seq<bool>, i: int)
    requires
        0 <= i < s.len(),
        s[i],
    ensures
        count_true(s.update(i, false)) + 1 == count_true(s),
    decreases s.len(),
{
    if s.len() > 0 {
        if i == s.len() - 1 {
            assert(s.update(i, false).drop_last() =~= s.drop_last());
        } else {
            lemma_count_false_update(s.drop_last(), i);
            assert(s.update(i, false).drop_last() =~= s.drop_last().update(i, false));
        }
    }
}

/// The count of true entries is at most the length.
pub proof fn lemma_count_le_len(s: Seq<bool>)
    ensures
        count_true(s) <= s.len(),
    decreases s.len(),
{
    if s.len() > 0 {
        lemma_count_le_len(s.drop_last());
    }
}

} // verus!
