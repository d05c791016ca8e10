//! Disjoint sets over `0..n` with path halving.
use vstd::prelude::*;

verus! {

/// Disjoint sets over the indices `0..n`.
pub(crate) struct UnionFind {
    pub(crate) parent: Vec<usize>,
    /// Strictly grows from a node to its parent, which makes every parent
    /// chain end at a root.
    pub(crate) rank: Ghost<Seq<nat>>,
    /// Bounds every rank.
    pub(crate) bound: Ghost<nat>,
}

impl UnionFind {
    /// Well-formed: parents in range, ranks grow towards the root.
    pub(crate) closed spec fn wf(&self) -> bool {
        &&& self.rank@.len() == self.parent@.len()
        &&& forall|i: int| 0 <= i < self.parent@.len() ==> (#[trigger] self.parent@[i]) < self.parent@.len()
        &&& forall|i: int| 0 <= i < self.parent@.len() ==> self.rank@[i] < self.bound@
        &&& forall|i: int|
            0 <= i < self.parent@.len() && self.parent@[i] != i ==> self.rank@[i]
                < self.rank@[#[trigger] self.parent@[i] as int]
    }

    /// Number of elements.
    pub(crate) closed spec fn size(&self) -> nat {
        self.parent@.len()
    }

    /// The representative of `i`: the root its parent chain ends at.
    pub(crate) closed spec fn root(&self, i: int) -> int
        decreases self.bound@ - self.rank@[i],
        when self.wf() && 0 <= i < self.parent@.len()
    {
        if self.parent@[i] == i {
            i
        } else {
            self.root(self.parent@[i] as int)
        }
    }

    proof fn lemma_root_in_range(&self, i: int)
        requires
            self.wf(),
            0 <= i < self.size(),
        ensures
            0 <= self.root(i) < self.size(),
            self.parent@[self.root(i)] == self.root(i),
        decreases self.bound@ - self.rank@[i],
    {
        if self.parent@[i] != i {
            self.lemma_root_in_range(self.parent@[i] as int);
        }
    }

    /// `n` singleton sets.
    pub(crate) fn new(n: usize) -> (r: Self)
        ensures
            r.wf(),
            r.size() == n,
            forall|i: int| 0 <= i < n ==> r.root(i) == i,
    {
        let mut parent: Vec<usize> = Vec::new();
        for i in 0..n
            invariant
                parent@.len() == i,
                forall|j: int| 0 <= j < i ==> parent@[j] == j,
        {
            parent.push(i);
        }
        let r = UnionFind {
            parent,
            rank: Ghost(Seq::new(n as nat, |i: int| 0nat)),
            bound: Ghost(1nat),
        };
        assert forall|i: int| 0 <= i < n implies r.root(i) == i by {}
        r
    }

    proof fn lemma_halving_keeps_roots(old_uf: &Self, new_uf: &Self, i: int, j: int)
        requires
            old_uf.wf(),
            new_uf.wf(),
            0 <= i < old_uf.size(),
            old_uf.parent@[i] != i,
            new_uf.rank@ == old_uf.rank@,
            new_uf.bound@ == old_uf.bound@,
            new_uf.parent@ == old_uf.parent@.update(
                i,
                old_uf.parent@[old_uf.parent@[i] as int],
            ),
            0 <= j < old_uf.size(),
        ensures
            new_uf.root(j) == old_uf.root(j),
        decreases old_uf.bound@ - old_uf.rank@[j],
    {
        if new_uf.parent@[j] == j {
            if j == i {
                let p = old_uf.parent@[i] as int;
                assert(old_uf.rank@[i] < old_uf.rank@[p]);
                if old_uf.parent@[p] != p {
                    assert(old_uf.rank@[p] < old_uf.rank@[old_uf.parent@[p] as int]);
                }
            }
        } else {
            let pn = new_uf.parent@[j] as int;
            Self::lemma_halving_keeps_roots(old_uf, new_uf, i, pn);
            if j == i {
                let p = old_uf.parent@[i] as int;
                if old_uf.parent@[p] != p {
                    assert(old_uf.root(p) == old_uf.root(old_uf.parent@[p] as int));
                }
            }
        }
    }

    /// The representative of `i`, shortening the path on the way.
    pub(crate) fn find(&mut self, i: usize) -> (r: usize)
        requires
            old(self).wf(),
            i < old(self).size(),
        ensures
            final(self).wf(),
            final(self).size() == old(self).size(),
            r == old(self).root(i as int),
            forall|j: int| 0 <= j < old(self).size() ==> final(self).root(j) == old(self).root(j),
    {
        let ghost orig = *self;
        let ghost i0 = i as int;
        let mut i = i;
        proof {
            orig.lemma_root_in_range(i as int);
        }
        while self.parent[i] != i
            invariant
                self.wf(),
                self.size() == orig.size(),
                self.rank@ == orig.rank@,
                self.bound@ == orig.bound@,
                i < self.size(),
                0 <= i0 < orig.size(),
                self.root(i as int) == orig.root(i0),
                forall|j: int| 0 <= j < orig.size() ==> self.root(j) == orig.root(j),
            decreases self.bound@ - self.rank@[i as int],
        {
            let ghost before = *self;
            let p = self.parent[i];
            let gp = self.parent[p];
            self.parent.set(i, gp);
            proof {
                assert(before.rank@[i as int] < before.rank@[p as int]);
                if gp != p {
                    assert(before.rank@[p as int] < before.rank@[gp as int]);
                }
                assert forall|j: int| 0 <= j < self.parent@.len() && self.parent@[j] != j implies self.rank@[j]
                    < self.rank@[#[trigger] self.parent@[j] as int] by {
                    if j != i {
                        assert(self.parent@[j] == before.parent@[j]);
                    }
                }
                assert forall|j: int| 0 <= j < self.parent@.len() implies (#[trigger] self.parent@[j])
                    < self.parent@.len() by {
                    if j != i {
                        assert(self.parent@[j] == before.parent@[j]);
                    }
                }
                assert(self.wf());
                assert forall|j: int| 0 <= j < orig.size() implies self.root(j) == orig.root(j) by {
                    Self::lemma_halving_keeps_roots(&before, self, i as int, j);
                }
                assert(before.root(i as int) == before.root(p as int));
                assert(before.parent@[p as int] == gp);
                if gp != p {
                    assert(before.root(p as int) == before.root(gp as int));
                }
                Self::lemma_halving_keeps_roots(&before, self, i as int, gp as int);
                Self::lemma_halving_keeps_roots(&before, self, i as int, i as int);
            }
            i = gp;
        }
        i
    }

    proof fn lemma_link_roots(old_uf: &Self, new_uf: &Self, ra: int, rb: int, j: int)
        requires
            old_uf.wf(),
            new_uf.wf(),
            0 <= ra < old_uf.size(),
            0 <= rb < old_uf.size(),
            ra != rb,
            old_uf.parent@[ra] == ra,
            old_uf.parent@[rb] == rb,
            new_uf.parent@ == old_uf.parent@.update(ra, rb as usize),
            forall|k: int| 0 <= k < old_uf.size() && k != rb ==> new_uf.rank@[k] == old_uf.rank@[k],
            new_uf.rank@[rb] >= old_uf.rank@[rb],
            0 <= j < old_uf.size(),
        ensures
            new_uf.root(j) == (if old_uf.root(j) == ra {
                rb
            } else {
                old_uf.root(j)
            }),
        decreases old_uf.bound@ - old_uf.rank@[j],
    {
        if old_uf.parent@[j] == j {
            if j == ra {
                assert(new_uf.parent@[rb] == rb);
                assert(new_uf.root(rb) == rb);
                assert(new_uf.parent@[ra] == rb);
                assert(new_uf.root(ra) == new_uf.root(rb));
            } else {
                assert(new_uf.parent@[j] == j);
                assert(new_uf.root(j) == j);
            }
        } else {
            let p = old_uf.parent@[j] as int;
            assert(j != ra);
            assert(new_uf.parent@[j] == p);
            Self::lemma_link_roots(old_uf, new_uf, ra, rb, p);
            assert(new_uf.root(j) == new_uf.root(p));
            assert(old_uf.root(j) == old_uf.root(p));
        }
    }

    /// Merges the sets of `a` and `b`.
    pub(crate) fn union(&mut self, a: usize, b: usize)
        requires
            old(self).wf(),
            a < old(self).size(),
            b < old(self).size(),
        ensures
            final(self).wf(),
            final(self).size() == old(self).size(),
            forall|j: int|
                0 <= j < old(self).size() ==> final(self).root(j) == (if old(self).root(j) == old(
                    self,
                ).root(a as int) {
                    old(self).root(b as int)
                } else {
                    old(self).root(j)
                }),
    {
        let ghost orig = *self;
        let ra = self.find(a);
        let rb = self.find(b);
        proof {
            orig.lemma_root_in_range(a as int);
            orig.lemma_root_in_range(b as int);
            self.lemma_root_in_range(a as int);
            self.lemma_root_in_range(b as int);
        }
        if ra != rb {
            let ghost before = *self;
            self.parent.set(ra, rb);
            let ghost new_rank = if before.rank@[rb as int] > before.rank@[ra as int] {
                before.rank@[rb as int]
            } else {
                before.rank@[ra as int] + 1
            };
            self.rank = Ghost(before.rank@.update(rb as int, new_rank));
            self.bound = Ghost(before.bound@ + new_rank + 1);
            proof {
                assert(self.rank@ == before.rank@.update(rb as int, new_rank));
                assert forall|j: int| 0 <= j < self.parent@.len() && self.parent@[j] != j implies self.rank@[j]
                    < self.rank@[#[trigger] self.parent@[j] as int] by {
                    if j == ra as int {
                        assert(self.parent@[j] == rb);
                        assert(self.rank@[j] == before.rank@[ra as int]);
                    } else {
                        assert(self.parent@[j] == before.parent@[j]);
                        assert(j != rb as int);
                        assert(self.rank@[j] == before.rank@[j]);
                        assert(before.rank@[j] < before.rank@[before.parent@[j] as int]);
                    }
                }
                assert forall|j: int| 0 <= j < self.parent@.len() implies self.rank@[j] < self.bound@ by {
                    assert(before.rank@[j] < before.bound@);
                }
                assert forall|j: int| 0 <= j < self.parent@.len() implies (#[trigger] self.parent@[j]) < self.parent@.len() by {
                    if j != ra as int {
                        assert(self.parent@[j] == before.parent@[j]);
                    }
                }
                assert(self.wf());
                assert forall|j: int| 0 <= j < orig.size() implies self.root(j) == (if orig.root(j)
                    == orig.root(a as int) {
                    orig.root(b as int)
                } else {
                    orig.root(j)
                }) by {
                    Self::lemma_link_roots(&before, self, ra as int, rb as int, j);
                }
            }
        }
    }
}

} // verus!
