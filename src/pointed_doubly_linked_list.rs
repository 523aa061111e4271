//! A doubly linked list of nodes that name their neighbours by their slots
//! in one vector: values are added at the tail and removed at the head.
pub use crate::pointed_list::PointedNode;
use crate::pointed_list::NodeList;
use vstd::laws_eq::obeys_concrete_eq;
use vstd::prelude::*;

verus! {

pub struct PointedDoublyLinkedList<T> {
    list: NodeList<T>,
}

impl<T> View for PointedDoublyLinkedList<T> {
    type V = Seq<T>;

    /// The values, first to last.
    closed spec fn view(&self) -> Seq<T> {
        self.list@
    }
}

impl<T: Copy + PartialEq> PointedDoublyLinkedList<T> {
    /// The links between the nodes are sound.
    pub closed spec fn wf(&self) -> bool {
        self.list.wf()
    }

    /// The slots of the nodes, in list order.
    pub closed spec fn links(&self) -> Seq<usize> {
        self.list.links()
    }

    /// The node vector.
    pub closed spec fn slots(&self) -> Seq<PointedNode<T>> {
        self.list.slots()
    }

    pub fn new() -> (r: Self)
        ensures
            r.wf(),
            r@ == Seq::<T>::empty(),
    {
        Self { list: NodeList::new() }
    }

    pub fn clear(&mut self)
        ensures
            final(self).wf(),
            final(self)@ == Seq::<T>::empty(),
    {
        self.list.clear();
    }

    pub fn size(&self) -> (r: usize)
        requires
            self.wf(),
        ensures
            r == self@.len(),
    {
        self.list.size()
    }

    /// Adds `data` at the tail.
    pub fn add(&mut self, data: T)
        requires
            old(self).wf(),
            old(self)@.len() < usize::MAX,
        ensures
            final(self).wf(),
            final(self)@ == old(self)@.push(data),
    {
        self.list.push_back(data);
    }

    /// The value that `remove` would take.
    pub fn peek(&self) -> (r: Option<&T>)
        requires
            self.wf(),
        ensures
            r is None <==> self@.len() == 0,
            r matches Some(x) ==> *x == self@[0],
    {
        self.list.peek()
    }

    /// Takes the value at the head off the list.
    pub fn remove(&mut self) -> (r: Option<T>)
        requires
            old(self).wf(),
        ensures
            final(self).wf(),
            old(self)@.len() == 0 ==> r is None && final(self)@ == old(self)@,
            old(self)@.len() > 0 ==> r == Some(old(self)@[0]) && final(self)@ == old(self)@.drop_first(),
    {
        self.list.pop_front()
    }

    /// Whether some value equals `data`.
    pub fn contains(&self, data: T) -> (r: bool)
        requires
            self.wf(),
            obeys_concrete_eq::<T>(),
        ensures
            r == self@.contains(data),
    {
        self.list.contains(data)
    }

    /// The position of the first value equal to `data`.
    pub fn index_of(&self, data: T) -> (r: Option<usize>)
        requires
            self.wf(),
            obeys_concrete_eq::<T>(),
        ensures
            r matches Some(i) ==> i < self@.len() && self@[i as int] == data && forall|j: int|
                0 <= j < i ==> self@[j] != data,
            r is None <==> !self@.contains(data),
    {
        self.list.index_of(data)
    }

    /// The slot of the first node.
    pub fn head(&self) -> (r: Option<usize>)
        requires
            self.wf(),
        ensures
            r is None <==> self@.len() == 0,
            r matches Some(h) ==> h == self.links()[0],
    {
        self.list.head()
    }

    /// The slot of the last node.
    pub fn tail(&self) -> (r: Option<usize>)
        requires
            self.wf(),
        ensures
            r is None <==> self@.len() == 0,
            r matches Some(t) ==> t == self.links()[self@.len() - 1],
    {
        self.list.tail()
    }

    /// The node at `slot`.
    pub fn node(&self, slot: usize) -> (r: &PointedNode<T>)
        requires
            slot < self.slots().len(),
        ensures
            *r == self.slots()[slot as int],
    {
        self.list.node(slot)
    }
}

} // verus!
