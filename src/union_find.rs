//! A union-find (disjoint-set) forest over the elements `0..size`, with
//! union by size and path compression.
use vstd::prelude::*;
use vstd::set_lib::{lemma_int_range, lemma_len_subset, lemma_set_disjoint_lens, set_int_range};

verus! {

/// The elements whose representative is `r`.
pub open spec fn members(rep: Seq<int>, r: int) -> Set<int> {
    Set::new(|i: int| 0 <= i < rep.len() && rep[i] == r)
}

/// The representatives: the elements that stand for their own component.
pub open spec fn roots(rep: Seq<int>) -> Set<int> {
    Set::new(|i: int| 0 <= i < rep.len() && rep[i] == i)
}

/// The components after those of `p` and `q` are joined: their elements
/// share one representative, the former one of `p` or of `q`, and every
/// other element keeps its own.
pub open spec fn joined(before: Seq<int>, after: Seq<int>, p: int, q: int) -> bool {
    &&& after.len() == before.len()
    &&& after[p] == before[p] || after[p] == before[q]
    &&& forall|i: int|
        0 <= i < before.len() ==> #[trigger] after[i] == if before[i] == before[p] || before[i]
            == before[q] {
            after[p]
        } else {
            before[i]
        }
}

proof fn lemma_members_finite(rep: Seq<int>, r: int)
    ensures
        members(rep, r).finite(),
        members(rep, r).len() <= rep.len(),
{
    lemma_int_range(0, rep.len() as int);
    lemma_len_subset(members(rep, r), set_int_range(0, rep.len() as int));
}

proof fn lemma_roots_finite(rep: Seq<int>)
    ensures
        roots(rep).finite(),
        roots(rep).len() <= rep.len(),
{
    lemma_int_range(0, rep.len() as int);
    lemma_len_subset(roots(rep), set_int_range(0, rep.len() as int));
}

pub struct UnionFind {
    size: usize,
    sz: Vec<usize>,
    id: Vec<usize>,
    num_components: usize,
    /// The representative (root) of each element.
    rep: Ghost<Seq<int>>,
    /// A rank that grows strictly along every parent link.
    rank: Ghost<Seq<nat>>,
}

impl View for UnionFind {
    type V = Seq<int>;

    /// The representative of each element; two elements are in one
    /// component when they have the same representative.
    closed spec fn view(&self) -> Seq<int> {
        self.rep@
    }
}

impl UnionFind {
    /// The forest's invariant: parent links lead to the representatives,
    /// ranks grow along the links, and the sizes and the component count
    /// are those of the partition.
    pub closed spec fn wf(&self) -> bool {
        let n = self.size as int;
        let rep = self.rep@;
        let rank = self.rank@;
        let id = self.id@;
        &&& id.len() == n
        &&& self.sz@.len() == n
        &&& rep.len() == n
        &&& rank.len() == n
        &&& forall|i: int| 0 <= i < n ==> 0 <= #[trigger] rep[i] < n && rep[rep[i]] == rep[i]
        &&& forall|i: int|
            0 <= i < n ==> #[trigger] id[i] < n && rep[id[i] as int] == rep[i] && (id[i] == i
                <==> rep[i] == i)
        &&& forall|i: int|
            0 <= i < n && #[trigger] id[i] != i ==> rank[id[i] as int] > rank[i] && rank[rep[i]]
                > rank[i]
        &&& forall|i: int| 0 <= i < n ==> #[trigger] rank[i] + self.num_components <= n
        &&& forall|i: int| 0 <= i < n && rep[i] == i ==> #[trigger] self.sz@[i] == members(rep, i).len()
        &&& self.num_components == roots(rep).len()
    }

    /// The element that `i` links to; a representative links to itself.
    pub closed spec fn parent_link(&self, i: int) -> int {
        self.id@[i] as int
    }

    /// A forest of `size` single-element components; an error for size 0.
    pub fn new(size: usize) -> (r: Result<UnionFind, &'static str>)
        ensures
            r is Err <==> size == 0,
            size == 0 ==> r == Err::<UnionFind, &'static str>("UnionFind with size <= 0 is not allowed"),
            r matches Ok(uf) ==> uf.wf() && uf@ == Seq::new(size as nat, |i: int| i) && roots(uf@).len()
                == size,
    {
        if size == 0 {
            return Err("UnionFind with size <= 0 is not allowed");
        }
        let mut id: Vec<usize> = Vec::new();
        let mut i: usize = 0;
        while i < size
            invariant
                i <= size,
                id@.len() == i,
                forall|j: int| 0 <= j < i ==> id@[j] == j,
            decreases size - i,
        {
            id.push(i);
            i += 1;
        }
        let ghost rep = Seq::new(size as nat, |i: int| i);
        let uf = Self {
            size,
            sz: vec![1; size],
            id,
            num_components: size,
            rep: Ghost(rep),
            rank: Ghost(Seq::new(size as nat, |i: int| 0nat)),
        };
        proof {
            assert forall|i: int| 0 <= i < size && rep[i] == i implies #[trigger] uf.sz@[i] == members(
                rep,
                i,
            ).len() by {
                assert(members(rep, i) =~= set![i]);
            }
            assert(roots(rep) =~= set_int_range(0, size as int));
            lemma_int_range(0, size as int);
        }
        Ok(uf)
    }

    /// The representative of `p`'s component; every element on the way
    /// from `p` to it is relinked straight to it.
    pub fn find(&mut self, p: usize) -> (r: usize)
        requires
            old(self).wf(),
            p < old(self)@.len(),
        ensures
            final(self).wf(),
            final(self)@ == old(self)@,
            r == old(self)@[p as int],
            r < old(self)@.len(),
            final(self)@[r as int] == r,
            final(self).parent_link(p as int) == r,
    {
        let ghost n = self.size as int;
        let ghost p0 = p as int;
        let mut root = p;
        while root != self.id[root]
            invariant
                self == old(self),
                self.wf(),
                n == self.size,
                root < self@.len(),
                self@[root as int] == self@[p as int],
            decreases n - self.rank@[root as int],
        {
            root = self.id[root];
        }
        let mut p = p;
        while p != root
            invariant
                self.wf(),
                n == self.size,
                self@ == old(self)@,
                self.size == old(self).size,
                self.rank == old(self).rank,
                p < self@.len(),
                self@[p as int] == root,
                root == old(self)@[p0],
                self@[root as int] == root,
                0 <= p0 < n,
                p == p0 || self.parent_link(p0) == root,
            decreases n - self.rank@[p as int],
        {
            let next = self.id[p];
            let ghost id0 = self.id@;
            proof {
                assert(id0.len() == n);
                assert(id0[p as int] != p);
            }
            self.id[p] = root;
            proof {
                assert(self.id@ == id0.update(p as int, root));
                assert(self.id@[p0] == root);
                let id = self.id@;
                let rep = self.rep@;
                let rank = self.rank@;
                assert forall|i: int| 0 <= i < n implies #[trigger] id[i] < n && rep[id[i] as int]
                    == rep[i] && (id[i] == i <==> rep[i] == i) by {
                    if i != p {
                        assert(id0[i] == id[i]);
                    }
                }
                assert forall|i: int| 0 <= i < n && #[trigger] id[i] != i implies rank[id[i] as int]
                    > rank[i] && rank[rep[i]] > rank[i] by {
                    if i != p {
                        assert(id0[i] == id[i]);
                    }
                }
            }
            p = next;
        }
        root
    }

    /// Whether `p` and `q` are in one component.
    pub fn connected(&mut self, p: usize, q: usize) -> (r: bool)
        requires
            old(self).wf(),
            p < old(self)@.len(),
            q < old(self)@.len(),
        ensures
            final(self).wf(),
            final(self)@ == old(self)@,
            r == (old(self)@[p as int] == old(self)@[q as int]),
    {
        self.find(p) == self.find(q)
    }

    /// The number of elements in `p`'s component.
    pub fn component_size(&mut self, p: usize) -> (r: usize)
        requires
            old(self).wf(),
            p < old(self)@.len(),
        ensures
            final(self).wf(),
            final(self)@ == old(self)@,
            r == members(old(self)@, old(self)@[p as int]).len(),
    {
        let i = self.find(p);
        self.sz[i]
    }

    /// The number of elements.
    pub fn size(&self) -> (r: usize)
        requires
            self.wf(),
        ensures
            r == self@.len(),
    {
        self.size
    }

    /// The number of components.
    pub fn components(&self) -> (r: usize)
        requires
            self.wf(),
        ensures
            r == roots(self@).len(),
    {
        self.num_components
    }

    /// Joins the components of `p` and `q`; nothing changes where they are
    /// one already. The smaller component goes under the larger one.
    pub fn unify(&mut self, p: usize, q: usize)
        requires
            old(self).wf(),
            p < old(self)@.len(),
            q < old(self)@.len(),
        ensures
            final(self).wf(),
            joined(old(self)@, final(self)@, p as int, q as int),
            roots(final(self)@).len() == roots(old(self)@).len() - if old(self)@[p as int] == old(
                self,
            )@[q as int] {
                0int
            } else {
                1int
            },
    {
        let root_1 = self.find(p);
        let root_2 = self.find(q);
        if root_1 == root_2 {
            return;
        }
        if self.sz[root_1] < self.sz[root_2] {
            self.link(root_1, root_2);
        } else {
            self.link(root_2, root_1);
        }
    }

    /// Puts the root `child` under the root `parent`.
    fn link(&mut self, child: usize, parent: usize)
        requires
            old(self).wf(),
            child < old(self)@.len(),
            parent < old(self)@.len(),
            child != parent,
            old(self)@[child as int] == child,
            old(self)@[parent as int] == parent,
        ensures
            final(self).wf(),
            final(self)@ == Seq::new(
                old(self)@.len(),
                |i: int| if old(self)@[i] == child { parent as int } else { old(self)@[i] },
            ),
            roots(final(self)@) == roots(old(self)@).remove(child as int),
            roots(final(self)@).len() == roots(old(self)@).len() - 1,
    {
        let ghost n = self.size as int;
        let ghost rep0 = self.rep@;
        let ghost rank0 = self.rank@;
        let ghost c = child as int;
        let ghost pa = parent as int;
        let ghost rep1 = Seq::new(n as nat, |i: int| if rep0[i] == c { pa } else { rep0[i] });
        let ghost joined_members = members(rep0, pa) + members(rep0, c);
        proof {
            lemma_members_finite(rep0, pa);
            lemma_members_finite(rep0, c);
            lemma_set_disjoint_lens(members(rep0, pa), members(rep0, c));
            assert(members(rep0, pa).disjoint(members(rep0, c)));
            assert(members(rep1, pa) =~= joined_members);
            lemma_members_finite(rep1, pa);
            assert(self.sz@[pa] == members(rep0, pa).len());
            assert(self.sz@[c] == members(rep0, c).len());
            lemma_roots_finite(rep0);
            assert(roots(rep0).contains(c));
            assert(roots(rep1) =~= roots(rep0).remove(c));
        }
        let total = self.sz[parent] + self.sz[child];
        self.sz[parent] = total;
        self.id[child] = parent;
        self.num_components = self.num_components - 1;
        let ghost new_rank = if rank0[pa] > rank0[c] + 1 { rank0[pa] } else { rank0[c] + 1 };
        self.rank = Ghost(rank0.update(pa, new_rank));
        self.rep = Ghost(rep1);
        proof {
            let rep = self.rep@;
            let rank = self.rank@;
            let id = self.id@;
            assert forall|i: int| 0 <= i < n implies 0 <= #[trigger] rep[i] < n && rep[rep[i]] == rep[i] by {
                assert(0 <= rep0[i] < n && rep0[rep0[i]] == rep0[i]);
            }
            assert forall|i: int|
                0 <= i < n implies #[trigger] id[i] < n && rep[id[i] as int] == rep[i] && (id[i] == i
                    <==> rep[i] == i) by {
                assert(0 <= rep0[i] < n && rep0[rep0[i]] == rep0[i]);
                if i != c {
                    assert(old(self).id@[i] == id[i]);
                    assert(rep0[old(self).id@[i] as int] == rep0[i]);
                }
            }
            assert forall|i: int| 0 <= i < n && #[trigger] id[i] != i implies rank[id[i] as int]
                > rank[i] && rank[rep[i]] > rank[i] by {
                assert(0 <= rep0[i] < n && rep0[rep0[i]] == rep0[i]);
                if i != c {
                    assert(old(self).id@[i] == id[i]);
                    assert(old(self).id@[i] != i);
                    assert(i != pa);
                }
            }
            assert forall|i: int| 0 <= i < n implies #[trigger] rank[i] + self.num_components <= n by {
                assert(rank0[i] + old(self).num_components <= n);
                assert(rank0[c] + old(self).num_components <= n);
            }
            assert forall|i: int| 0 <= i < n && rep[i] == i implies #[trigger] self.sz@[i] == members(
                rep,
                i,
            ).len() by {
                if i != pa {
                    assert(rep0[i] == i);
                    assert(members(rep, i) =~= members(rep0, i));
                }
            }
        }
    }
}

} // verus!
