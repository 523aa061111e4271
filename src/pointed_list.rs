//! A linked list whose nodes live in one vector and point at each other by
//! slot number, in both directions. It backs the pointed lists, the queue and
//! the stack of this crate.
use vstd::laws_eq::obeys_concrete_eq;
use vstd::prelude::*;
use vstd::std_specs::cmp::PartialEqSpec;

verus! {

/// A node: its value and the slots of its neighbours.
#[derive(Clone, Debug, PartialEq)]
pub struct PointedNode<T> {
    pub data: T,
    pub prev: Option<usize>,
    pub next: Option<usize>,
}

impl<T> PointedNode<T> {
    /// A node with no neighbours.
    pub fn new(data: T) -> (r: Self)
        ensures
            r.data == data,
            r.prev is None,
            r.next is None,
    {
        Self { data, prev: None, next: None }
    }
}

pub struct NodeList<T> {
    nodes: Vec<PointedNode<T>>,
    head: Option<usize>,
    tail: Option<usize>,
    size: usize,
    /// The slots of the list's nodes, first to last.
    order: Ghost<Seq<usize>>,
}

impl<T> View for NodeList<T> {
    type V = Seq<T>;

    /// The values, first to last.
    closed spec fn view(&self) -> Seq<T> {
        Seq::new(self.order@.len(), |k: int| self.nodes@[self.order@[k] as int].data)
    }
}

impl<T: Copy + PartialEq> NodeList<T> {
    /// The slots of the nodes, first to last.
    pub closed spec fn links(&self) -> Seq<usize> {
        self.order@
    }

    /// The node vector.
    pub closed spec fn slots(&self) -> Seq<PointedNode<T>> {
        self.nodes@
    }

    /// Each node's links name its neighbours in the list, the ends are the
    /// first and last nodes, and the count is the list's length.
    pub closed spec fn wf(&self) -> bool {
        let order = self.order@;
        let nodes = self.nodes@;
        let n = order.len();
        &&& self.size == n
        &&& forall|k: int| 0 <= k < n ==> #[trigger] order[k] < nodes.len()
        &&& forall|j: int, k: int| 0 <= j < k < n ==> order[j] != order[k]
        &&& self.head == if n == 0 { None } else { Some(order[0]) }
        &&& self.tail == if n == 0 { None } else { Some(order[n - 1]) }
        &&& forall|k: int|
            0 <= k < n ==> (#[trigger] nodes[order[k] as int]).next == if k + 1 < n {
                Some(order[k + 1])
            } else {
                None
            } && nodes[order[k] as int].prev == if k > 0 {
                Some(order[k - 1])
            } else {
                None
            }
    }

    pub fn new() -> (r: Self)
        ensures
            r.wf(),
            r@ == Seq::<T>::empty(),
    {
        Self { nodes: Vec::new(), head: None, tail: None, size: 0, order: Ghost(Seq::empty()) }
    }

    /// Empties the list and releases its nodes.
    pub fn clear(&mut self)
        ensures
            final(self).wf(),
            final(self)@ == Seq::<T>::empty(),
    {
        self.nodes.clear();
        self.head = None;
        self.tail = None;
        self.size = 0;
        self.order = Ghost(Seq::empty());
    }

    pub fn size(&self) -> (r: usize)
        requires
            self.wf(),
        ensures
            r == self@.len(),
    {
        self.size
    }

    /// The slot of the first node.
    pub fn head(&self) -> (r: Option<usize>)
        requires
            self.wf(),
        ensures
            r is None <==> self@.len() == 0,
            r matches Some(h) ==> h == self.links()[0],
    {
        self.head
    }

    /// The slot of the last node.
    pub fn tail(&self) -> (r: Option<usize>)
        requires
            self.wf(),
        ensures
            r is None <==> self@.len() == 0,
            r matches Some(t) ==> t == self.links()[self@.len() - 1],
    {
        self.tail
    }

    /// The node at `slot`.
    pub fn node(&self, slot: usize) -> (r: &PointedNode<T>)
        requires
            slot < self.slots().len(),
        ensures
            *r == self.slots()[slot as int],
    {
        &self.nodes[slot]
    }

    /// The first value.
    pub fn peek(&self) -> (r: Option<&T>)
        requires
            self.wf(),
        ensures
            r is None <==> self@.len() == 0,
            r matches Some(x) ==> *x == self@[0],
    {
        match self.head {
            Some(h) => Some(&self.nodes[h].data),
            None => None,
        }
    }

    /// Adds `data` after the last node.
    pub fn push_back(&mut self, data: T)
        requires
            old(self).wf(),
            old(self)@.len() < usize::MAX,
        ensures
            final(self).wf(),
            final(self)@ == old(self)@.push(data),
    {
        let slot = self.nodes.len();
        self.nodes.push(PointedNode { data, prev: self.tail, next: None });
        match self.tail {
            Some(t) => {
                self.nodes[t].next = Some(slot);
            },
            None => {
                self.head = Some(slot);
            },
        }
        self.tail = Some(slot);
        self.size += 1;
        self.order = Ghost(self.order@.push(slot));
        proof {
            let order = self.order@;
            let nodes = self.nodes@;
            let old_order = old(self).order@;
            let n = order.len() as int;
            assert forall|k: int| 0 <= k < n implies #[trigger] order[k] < nodes.len() by {
                if k < n - 1 {
                    assert(old_order[k] < old(self).nodes@.len());
                }
            }
            assert forall|j: int, k: int| 0 <= j < k < n implies order[j] != order[k] by {
                if k < n - 1 {
                    assert(old_order[j] != old_order[k]);
                } else {
                    assert(old_order[j] < old(self).nodes@.len());
                }
            }
            assert forall|k: int| 0 <= k < n implies (#[trigger] nodes[order[k] as int]).next == (if k + 1 < n {
                Some(order[k + 1])
            } else {
                None
            }) && nodes[order[k] as int].prev == (if k > 0 {
                Some(order[k - 1])
            } else {
                None
            }) by {
                if k < n - 1 {
                    assert(old_order[k] < old(self).nodes@.len());
                    assert(old(self).nodes@[old_order[k] as int] == old(self).nodes@[old_order[k] as int]);
                }
            }
            assert(self@ =~= old(self)@.push(data));
        }
    }

    /// Adds `data` before the first node.
    pub fn push_front(&mut self, data: T)
        requires
            old(self).wf(),
            old(self)@.len() < usize::MAX,
        ensures
            final(self).wf(),
            final(self)@ == seq![data] + old(self)@,
    {
        let slot = self.nodes.len();
        self.nodes.push(PointedNode { data, prev: None, next: self.head });
        match self.head {
            Some(h) => {
                self.nodes[h].prev = Some(slot);
            },
            None => {
                self.tail = Some(slot);
            },
        }
        self.head = Some(slot);
        self.size += 1;
        self.order = Ghost(seq![slot] + self.order@);
        proof {
            let order = self.order@;
            let nodes = self.nodes@;
            let old_order = old(self).order@;
            let n = order.len() as int;
            assert forall|k: int| 0 <= k < n implies #[trigger] order[k] < nodes.len() by {
                if k > 0 {
                    assert(old_order[k - 1] < old(self).nodes@.len());
                }
            }
            assert forall|j: int, k: int| 0 <= j < k < n implies order[j] != order[k] by {
                if j > 0 {
                    assert(old_order[j - 1] != old_order[k - 1]);
                } else {
                    assert(old_order[k - 1] < old(self).nodes@.len());
                }
            }
            assert forall|k: int| 0 <= k < n implies (#[trigger] nodes[order[k] as int]).next == (if k + 1 < n {
                Some(order[k + 1])
            } else {
                None
            }) && nodes[order[k] as int].prev == (if k > 0 {
                Some(order[k - 1])
            } else {
                None
            }) by {
                if k > 0 {
                    assert(old_order[k - 1] < old(self).nodes@.len());
                    assert(old(self).nodes@[old_order[k - 1] as int] == old(self).nodes@[old_order[k - 1] as int]);
                }
            }
            assert(self@ =~= seq![data] + old(self)@);
        }
    }

    /// Takes the first value off the list; once the list is empty its node
    /// vector is released.
    pub fn pop_front(&mut self) -> (r: Option<T>)
        requires
            old(self).wf(),
        ensures
            final(self).wf(),
            old(self)@.len() == 0 ==> r is None && final(self)@ == old(self)@,
            old(self)@.len() > 0 ==> r == Some(old(self)@[0]) && final(self)@ == old(self)@.drop_first(),
    {
        match self.head {
            None => None,
            Some(h) => {
                let data = self.nodes[h].data;
                let next = self.nodes[h].next;
                self.head = next;
                match next {
                    Some(nx) => {
                        self.nodes[nx].prev = None;
                    },
                    None => {
                        self.tail = None;
                    },
                }
                self.size -= 1;
                self.order = Ghost(self.order@.drop_first());
                proof {
                    let order = self.order@;
                    let nodes = self.nodes@;
                    let old_order = old(self).order@;
                    let n = order.len() as int;
                    assert forall|k: int| 0 <= k < n implies #[trigger] order[k] < nodes.len() by {
                        assert(old_order[k + 1] < old(self).nodes@.len());
                    }
                    assert forall|j: int, k: int| 0 <= j < k < n implies order[j] != order[k] by {
                        assert(old_order[j + 1] != old_order[k + 1]);
                    }
                    assert forall|k: int| 0 <= k < n implies (#[trigger] nodes[order[k] as int]).next == (if k + 1 < n {
                        Some(order[k + 1])
                    } else {
                        None
                    }) && nodes[order[k] as int].prev == (if k > 0 {
                        Some(order[k - 1])
                    } else {
                        None
                    }) by {
                        assert(old_order[k + 1] < old(self).nodes@.len());
                        assert(old(self).nodes@[old_order[k + 1] as int] == old(self).nodes@[old_order[k + 1] as int]);
                        assert(old_order[0] != old_order[k + 1]);
                    }
                    assert(self@ =~= old(self)@.drop_first());
                }
                if self.size == 0 {
                    self.nodes.clear();
                }
                Some(data)
            },
        }
    }

    /// The position of the first value equal to `data`.
    pub fn index_of(&self, data: T) -> (r: Option<usize>)
        requires
            self.wf(),
            obeys_concrete_eq::<T>(),
        ensures
            r matches Some(i) ==> i < self@.len() && self@[i as int] == data && forall|j: int|
                0 <= j < i ==> self@[j] != data,
            r is None <==> !self@.contains(data),
    {
        proof {
            reveal(obeys_concrete_eq);
        }
        let mut current = self.head;
        let mut i: usize = 0;
        while current.is_some()
            invariant
                self.wf(),
                T::obeys_eq_spec(),
                forall|x: T, y: T| x.eq_spec(&y) <==> x == y,
                i <= self@.len(),
                current == if i < self@.len() { Some(self.links()[i as int]) } else { None },
                forall|j: int| 0 <= j < i ==> self@[j] != data,
            decreases self@.len() - i,
        {
            let c = current.unwrap();
            proof {
                assert(self.links()[i as int] < self.slots().len());
            }
            if self.nodes[c].data == data {
                proof {
                    assert(self@[i as int] == data);
                }
                return Some(i);
            }
            current = self.nodes[c].next;
            i += 1;
        }
        None
    }

    /// Whether some value equals `data`.
    pub fn contains(&self, data: T) -> (r: bool)
        requires
            self.wf(),
            obeys_concrete_eq::<T>(),
        ensures
            r == self@.contains(data),
    {
        self.index_of(data).is_some()
    }
}

} // verus!
