//! A singly linked list of owned, boxed nodes: values are added at the tail
//! and removed at the head.
use vstd::laws_eq::obeys_concrete_eq;
use vstd::prelude::*;
use vstd::std_specs::cmp::PartialEqSpec;

verus! {

pub struct Node<T> {
    pub data: T,
    pub next: Option<Box<Node<T>>>,
}

impl<T> Node<T> {
    /// A node that ends a list.
    pub fn new(data: T) -> (r: Self)
        ensures
            r.data == data,
            r.next is None,
    {
        Self { data, next: None }
    }

    /// The values from this node to the end of the list.
    pub open spec fn values(self) -> Seq<T>
        decreases self,
    {
        seq![self.data] + match self.next {
            Some(next) => next.values(),
            None => Seq::empty(),
        }
    }
}

/// The values of a chain of nodes, first to last.
pub open spec fn chain_values<T>(link: Option<Box<Node<T>>>) -> Seq<T> {
    match link {
        Some(node) => node.values(),
        None => Seq::empty(),
    }
}

pub struct SinglyLinkedList<T> {
    size: usize,
    head: Option<Box<Node<T>>>,
}

impl<T> View for SinglyLinkedList<T> {
    type V = Seq<T>;

    /// The values, head first.
    closed spec fn view(&self) -> Seq<T> {
        chain_values(self.head)
    }
}

impl<T: PartialEq> SinglyLinkedList<T> {
    /// The stored count is the number of values.
    pub closed spec fn wf(&self) -> bool {
        self.size == self@.len()
    }

    pub fn new() -> (r: Self)
        ensures
            r.wf(),
            r@ == Seq::<T>::empty(),
    {
        Self { size: 0, head: None }
    }

    pub fn clear(&mut self)
        ensures
            final(self).wf(),
            final(self)@ == Seq::<T>::empty(),
    {
        self.head = None;
        self.size = 0;
    }

    pub fn size(&self) -> (r: usize)
        requires
            self.wf(),
        ensures
            r == self@.len(),
    {
        self.size
    }

    /// The first node, if any.
    pub fn head(&self) -> (r: &Option<Box<Node<T>>>)
        ensures
            chain_values(*r) == self@,
    {
        &self.head
    }

    /// Adds `data` at the tail.
    pub fn add(&mut self, data: T)
        requires
            old(self).wf(),
            old(self)@.len() < usize::MAX,
        ensures
            final(self).wf(),
            final(self)@ == old(self)@.push(data),
    {
        let ghost values = self@;
        let mut head = self.head.take();
        let mut current = &mut head;
        let ghost mut i: int = 0;
        while current.is_some()
            invariant
                0 <= i <= values.len(),
                chain_values(*current) == values.subrange(i, values.len() as int),
                chain_values(after_borrow(head)) == values.take(i) + chain_values(*final(current)),
            decreases values.len() - i,
        {
            match current {
                Some(node) => {
                    proof {
                        assert(node.values() == seq![node.data] + chain_values(node.next));
                        assert(values.subrange(i, values.len() as int)[0] == node.data);
                        assert(values.subrange(i + 1, values.len() as int) =~= values.subrange(i, values.len() as int).drop_first());
                        assert(values.take(i + 1) =~= values.take(i).push(node.data));
                    }
                    current = &mut node.next;
                },
                None => {},
            }
            proof {
                i = i + 1;
            }
        }
        *current = Some(Box::new(Node::new(data)));
        proof {
            assert(values.take(i) == values);
        }
        self.head = head;
        self.size += 1;
    }

    /// The value at the head, if any.
    pub fn peek(&self) -> (r: Option<&T>)
        ensures
            r is None <==> self@.len() == 0,
            r matches Some(x) ==> *x == self@[0],
    {
        match &self.head {
            Some(node) => Some(&node.data),
            None => None,
        }
    }

    /// Takes the value at the head off the list.
    pub fn remove(&mut self) -> (r: Option<T>)
        requires
            old(self).wf(),
        ensures
            final(self).wf(),
            old(self)@.len() == 0 ==> r is None && final(self)@ == old(self)@,
            old(self)@.len() > 0 ==> r == Some(old(self)@[0]) && final(self)@ == old(self)@.drop_first(),
    {
        match self.head.take() {
            Some(node) => {
                let node = *node;
                let Node { data, next } = node;
                proof {
                    assert(chain_values(next) =~= old(self)@.drop_first());
                }
                self.head = next;
                self.size -= 1;
                Some(data)
            }
            None => None,
        }
    }

    /// Whether some value equals `data`.
    pub fn contains(&self, data: T) -> (r: bool)
        requires
            self.wf(),
            obeys_concrete_eq::<T>(),
        ensures
            r == self@.contains(data),
    {
        match self.index_of(data) {
            Some(_) => true,
            None => false,
        }
    }

    /// The position of the first value equal to `data`.
    pub fn index_of(&self, data: T) -> (r: Option<usize>)
        requires
            self.wf(),
            obeys_concrete_eq::<T>(),
        ensures
            r matches Some(i) ==> i < self@.len() && self@[i as int] == data && forall|j: int|
                0 <= j < i ==> self@[j] != data,
            r is None <==> !self@.contains(data),
    {
        proof {
            reveal(obeys_concrete_eq);
        }
        let mut current = &self.head;
        let mut i: usize = 0;
        loop
            invariant
                T::obeys_eq_spec(),
                forall|x: T, y: T| x.eq_spec(&y) <==> x == y,
                i <= self@.len(),
                self@.len() <= usize::MAX,
                chain_values(*current) == self@.subrange(i as int, self@.len() as int),
                forall|j: int| 0 <= j < i ==> self@[j] != data,
            decreases self@.len() - i,
        {
            match current {
                Some(node) => {
                    proof {
                        assert(chain_values(*current) == node.values());
                        assert(node.values() == seq![node.data] + chain_values(node.next));
                        assert(self@.subrange(i as int, self@.len() as int)[0] == node.data);
                    }
                    if node.data == data {
                        return Some(i);
                    }
                    proof {
                        let sub = self@.subrange(i as int, self@.len() as int);
                        assert(sub.drop_first() =~= self@.subrange(i + 1, self@.len() as int));
                        assert((seq![node.data] + chain_values(node.next)).drop_first() =~= chain_values(node.next));
                    }
                    current = &node.next;
                    i += 1;
                }
                None => {
                    return None;
                }
            }
        }
    }
}

} // verus!
