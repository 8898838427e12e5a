//! Disjoint sets of indices, with path compression.
use vstd::prelude::*;

verus! {

/// A partition of the indices `0..len` into sets, each with one representative.
pub struct DisjointSets {
    parent: Vec<usize>,
    roots: Ghost<Seq<usize>>,
    depth: Ghost<Seq<nat>>,
}

impl View for DisjointSets {
    type V = Seq<usize>;

    /// The representative of each index.
    closed spec fn view(&self) -> Seq<usize> {
        self.roots@
    }
}

impl DisjointSets {
    /// Parents lead up to the representative without a cycle.
    pub closed spec fn wf(self) -> bool {
        &&& self.roots@.len() == self.parent@.len()
        &&& self.depth@.len() == self.parent@.len()
        &&& forall|i: int|
            0 <= i < self.parent@.len() ==> {
                let p = #[trigger] self.parent@[i];
                &&& p < self.parent@.len()
                &&& self.roots@[i] == self.roots@[p as int]
                &&& self.roots@[i] < self.parent@.len()
                &&& self.parent@[self.roots@[i] as int] == self.roots@[i]
                &&& p == i ==> self.roots@[i] == i
                &&& p != i ==> self.depth@[p as int] < self.depth@[i]
                &&& self.roots@[i] != i ==> self.depth@[self.roots@[i] as int] < self.depth@[i]
            }
    }

    /// Every index in a set of its own.
    pub fn new(n: usize) -> (r: Self)
        ensures
            r.wf(),
            r@.len() == n,
            forall|i: int| 0 <= i < n ==> #[trigger] r@[i] == i,
    {
        let mut parent: Vec<usize> = Vec::new();
        for i in 0..n
            invariant
                parent@.len() == i,
                forall|k: int| 0 <= k < i ==> #[trigger] parent@[k] == k,
        {
            parent.push(i);
        }
        DisjointSets {
            roots: Ghost(parent@),
            depth: Ghost(Seq::new(n as nat, |i: int| 0nat)),
            parent,
        }
    }

    /// The representative of the set of `x`; shortens the path that led there.
    pub fn find(&mut self, x: usize) -> (r: usize)
        requires
            old(self).wf(),
            x < old(self)@.len(),
        ensures
            final(self).wf(),
            final(self)@ == old(self)@,
            r == old(self)@[x as int],
            r < old(self)@.len(),
            old(self)@[r as int] == r,
    {
        self.find_from(x)
    }

    fn find_from(&mut self, x: usize) -> (r: usize)
        requires
            old(self).wf(),
            x < old(self)@.len(),
        ensures
            final(self).wf(),
            final(self)@ == old(self)@,
            final(self).depth@ == old(self).depth@,
            r == old(self)@[x as int],
            r < old(self)@.len(),
            old(self)@[r as int] == r,
        decreases old(self).depth@[x as int],
    {
        let p: usize = self.parent[x];
        if p == x {
            return x;
        }
        let root: usize = self.find_from(p);
        let ghost before = self.parent@;
        self.parent.set(x, root);
        assert forall|i: int| 0 <= i < self.parent@.len() implies {
            let p = #[trigger] self.parent@[i];
            &&& p < self.parent@.len()
            &&& self.roots@[i] == self.roots@[p as int]
            &&& self.roots@[i] < self.parent@.len()
            &&& self.parent@[self.roots@[i] as int] == self.roots@[i]
            &&& p == i ==> self.roots@[i] == i
            &&& p != i ==> self.depth@[p as int] < self.depth@[i]
            &&& self.roots@[i] != i ==> self.depth@[self.roots@[i] as int] < self.depth@[i]
        } by {
            assert(before[i] < before.len());
            assert(before[x as int] < before.len());
            assert(before[root as int] == root);
        }
        root
    }

    /// Joins the sets of `a` and `b` under the representative of `a`.
    pub fn union(&mut self, a: usize, b: usize)
        requires
            old(self).wf(),
            a < old(self)@.len(),
            b < old(self)@.len(),
        ensures
            final(self).wf(),
            final(self)@.len() == old(self)@.len(),
            forall|i: int|
                0 <= i < old(self)@.len() ==> #[trigger] final(self)@[i] == if old(self)@[i]
                    == old(self)@[b as int] {
                    old(self)@[a as int]
                } else {
                    old(self)@[i]
                },
    {
        let ra: usize = self.find(a);
        let rb: usize = self.find(b);
        if ra != rb {
            let ghost before = *self;
            let ghost lift = before.depth@[ra as int] + 1;
            self.parent.set(rb, ra);
            self.roots = Ghost(
                before.roots@.map_values(
                    |r: usize|
                        if r == rb {
                            ra
                        } else {
                            r
                        },
                ),
            );
            self.depth = Ghost(
                Seq::new(
                    before.depth@.len(),
                    |i: int|
                        if before.roots@[i] == rb {
                            before.depth@[i] + lift
                        } else {
                            before.depth@[i]
                        },
                ),
            );
            assert forall|i: int| 0 <= i < self.parent@.len() implies {
                let p = #[trigger] self.parent@[i];
                &&& p < self.parent@.len()
                &&& self.roots@[i] == self.roots@[p as int]
                &&& self.roots@[i] < self.parent@.len()
                &&& self.parent@[self.roots@[i] as int] == self.roots@[i]
                &&& p == i ==> self.roots@[i] == i
                &&& p != i ==> self.depth@[p as int] < self.depth@[i]
                &&& self.roots@[i] != i ==> self.depth@[self.roots@[i] as int] < self.depth@[i]
            } by {
                let q = before.parent@[i];
                assert(q < before.parent@.len());
                assert(before.parent@[ra as int] == ra);
                assert(before.parent@[rb as int] == rb);
                assert(before.parent@[q as int] < before.parent@.len());
            }
        }
    }
}

} // verus!
