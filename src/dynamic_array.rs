//! A growable array of bytes that doubles its capacity whenever it is full.
use vstd::prelude::*;

verus! {

pub struct DynamicArray {
    arr: Vec<u8>,
    capacity: usize,
    length: usize,
}

impl View for DynamicArray {
    type V = Seq<u8>;

    /// The bytes held, first to last.
    closed spec fn view(&self) -> Seq<u8> {
        self.arr@
    }
}

/// The capacity after one growth step from `capacity`.
pub open spec fn grown(capacity: nat) -> nat {
    if capacity == 0 {
        1
    } else {
        2 * capacity
    }
}

impl DynamicArray {
    /// The number of bytes there is room for before the next growth.
    pub closed spec fn room(&self) -> nat {
        self.capacity as nat
    }

    /// The length is that of the bytes held, and they fit in the capacity.
    pub closed spec fn wf(&self) -> bool {
        &&& self.length == self.arr@.len()
        &&& self.length <= self.capacity
    }

    pub fn new() -> (r: Self)
        ensures
            r.wf(),
            r@ == Seq::<u8>::empty(),
            r.room() == 0,
    {
        Self { arr: Vec::new(), capacity: 0, length: 0 }
    }

    /// Appends `value`, growing first when the array is full.
    pub fn push(&mut self, value: u8)
        requires
            old(self).wf(),
            old(self)@.len() < usize::MAX,
            old(self)@.len() == old(self).room() ==> grown(old(self).room()) <= usize::MAX,
        ensures
            final(self).wf(),
            final(self)@ == old(self)@.push(value),
            final(self).room() == if old(self)@.len() < old(self).room() {
                old(self).room()
            } else {
                grown(old(self).room())
            },
    {
        if self.length >= self.capacity {
            self.grow();
        }
        self.arr.push(value);
        self.length += 1;
    }

    /// The byte at `index`, or `None` past the end.
    pub fn get(&self, index: usize) -> (r: Option<&u8>)
        requires
            self.wf(),
        ensures
            index < self@.len() ==> r == Some(&self@[index as int]),
            index >= self@.len() ==> r is None,
    {
        if index < self.length {
            Some(&self.arr[index])
        } else {
            None
        }
    }

    pub fn len(&self) -> (r: usize)
        requires
            self.wf(),
        ensures
            r == self@.len(),
    {
        self.length
    }

    pub fn capacity(&self) -> (r: usize)
        ensures
            r == self.room(),
    {
        self.capacity
    }

    /// Doubles the capacity (from zero, to one), keeping the bytes.
    pub fn grow(&mut self)
        requires
            old(self).wf(),
            grown(old(self).room()) <= usize::MAX,
        ensures
            final(self).wf(),
            final(self)@ == old(self)@,
            final(self).room() == grown(old(self).room()),
    {
        let new_capacity = if self.capacity == 0 {
            1
        } else {
            self.capacity * 2
        };
        self.arr.reserve(new_capacity - self.length);
        self.capacity = new_capacity;
    }
}

} // verus!
