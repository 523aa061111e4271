//! An indexed binary min-heap: a complete binary tree laid out in a vector,
//! together with an index from each stored value to a slot that holds it, so
//! that any value can be found, and removed, without a scan of the tree.
use crate::order::{OrderedKey, leq, lemma_eq_obeyed, lemma_leq_refl, lemma_leq_total, lemma_leq_trans, lemma_not_leq, lemma_partial_cmp_obeyed, total_order};
use std::collections::BTreeMap;
use vstd::multiset::Multiset;
use vstd::prelude::*;

verus! {

/// The slot above slot `i` (for `i > 0`).
pub open spec fn parent(i: int) -> int {
    (i - 1) / 2
}

/// The edge from slot `i` up to its parent is in order.
pub open spec fn edge_ok<T: Ord>(s: Seq<T>, i: int) -> bool {
    leq(s[parent(i)], s[i])
}

/// The min-heap property: no slot holds a value smaller than its parent's.
pub open spec fn heap_ordered<T: Ord>(s: Seq<T>) -> bool {
    forall|i: int| 0 < i < s.len() ==> #[trigger] edge_ok(s, i)
}

/// The index names, for each value, a slot that holds it, and it has an entry
/// for every value in the array.
pub open spec fn index_consistent<T>(s: Seq<T>, m: Map<T, usize>) -> bool {
    &&& forall|v: T| #[trigger] m.contains_key(v) ==> m[v] < s.len() && s[m[v] as int] == v
    &&& forall|i: int| 0 <= i < s.len() ==> #[trigger] m.contains_key(s[i])
}

/// `m` with the entry of `v`, if it has one, set to `slot`.
pub open spec fn moved_entry<T>(m: Map<T, usize>, v: T, slot: usize) -> Map<T, usize> {
    if m.contains_key(v) {
        m.insert(v, slot)
    } else {
        m
    }
}

/// The array with slots `i` and `j` exchanged.
pub open spec fn swapped<T>(s: Seq<T>, i: int, j: int) -> Seq<T> {
    s.update(i, s[j]).update(j, s[i])
}

/// `after` is `before` with the value at slot `p` taken out: one slot
/// shorter, and every slot neither above nor below `p` keeps its value.
pub open spec fn removed_slot<T>(before: Seq<T>, after: Seq<T>, p: int) -> bool {
    &&& after.len() + 1 == before.len()
    &&& forall|j: int|
        0 <= j < after.len() && !descends(j, p) && !descends(p, j) ==> #[trigger] after[j]
            == before[j]
}

/// Every edge is in order but those that meet slot `k`, among the edges whose
/// upper end is at `lo` or below it in the array.
pub open spec fn ordered_but<T: Ord>(s: Seq<T>, lo: int, k: int) -> bool {
    forall|j: int|
        0 < j < s.len() && lo <= parent(j) && parent(j) != k && j != k ==> #[trigger] edge_ok(s, j)
}

/// The subtrees below slot `k` are heaps: every edge inside the subtree of
/// `k` is in order but those from `k` to its children.
pub open spec fn children_heaps<T: Ord>(s: Seq<T>, k: int) -> bool {
    forall|j: int|
        0 < j < s.len() && descends(j, k) && parent(j) != k && j != k ==> #[trigger] edge_ok(s, j)
}

/// Every edge is in order but the one from `k` to its parent, and the
/// parent of `k` is no larger than the children of `k`.
pub open spec fn ordered_but_up<T: Ord>(s: Seq<T>, k: int) -> bool {
    &&& forall|j: int| 0 < j < s.len() && j != k ==> #[trigger] edge_ok(s, j)
    &&& k > 0 ==> forall|c: int|
        0 < c < s.len() && parent(c) == k ==> leq(s[parent(k)], #[trigger] s[c])
}

proof fn lemma_swap_multiset<T>(s: Seq<T>, i: int, j: int)
    requires
        0 <= i < s.len(),
        0 <= j < s.len(),
    ensures
        swapped(s, i, j).to_multiset() == s.to_multiset(),
        swapped(s, i, j).len() == s.len(),
{
    broadcast use vstd::seq_lib::group_to_multiset_ensures;

    lemma_update_multiset(s, i, s[j]);
    lemma_update_multiset(s.update(i, s[j]), j, s[i]);
    assert(s.to_multiset().remove(s[i]).insert(s[j]).remove(s[j]).insert(s[i]) =~= s.to_multiset());
}

proof fn lemma_update_multiset<T>(s: Seq<T>, i: int, v: T)
    requires
        0 <= i < s.len(),
    ensures
        s.update(i, v).to_multiset() == s.to_multiset().remove(s[i]).insert(v),
{
    broadcast use vstd::seq_lib::group_to_multiset_ensures;

    let t = s.update(i, v);
    assert(t.remove(i) =~= s.remove(i));
    assert(t.to_multiset().remove(v) == s.to_multiset().remove(s[i]));
    assert(t.contains(v)) by {
        assert(t[i] == v);
    }
    assert(t.to_multiset() =~= t.to_multiset().remove(v).insert(v));
}

/// The root of a heap-ordered array is no larger than any slot.
proof fn lemma_root_least<T: Ord>(s: Seq<T>, j: int)
    requires
        total_order::<T>(),
        heap_ordered(s),
        0 <= j < s.len(),
    ensures
        leq(s[0], s[j]),
    decreases j,
{
    if j == 0 {
        lemma_leq_refl(s[0]);
    } else {
        assert(edge_ok(s, j));
        lemma_root_least(s, parent(j));
        lemma_leq_trans(s[0], s[parent(j)], s[j]);
    }
}

/// One step of swim: the value at `k` changes places with its parent.
proof fn lemma_swim_step<T: Ord>(s: Seq<T>, k: int)
    requires
        total_order::<T>(),
        0 < k < s.len(),
        ordered_but_up(s, k),
        leq(s[k], s[parent(k)]),
    ensures
        ordered_but_up(swapped(s, parent(k), k), parent(k)),
{
    let p = parent(k);
    let t = swapped(s, p, k);
    assert forall|j: int| 0 < j < t.len() && j != p implies #[trigger] edge_ok(t, j) by {
        if j == k {
        } else if parent(j) == k {
            assert(leq(s[p], s[j]));
        } else if parent(j) == p {
            assert(edge_ok(s, j));
            lemma_leq_trans(s[k], s[p], s[j]);
        } else {
            assert(edge_ok(s, j));
        }
    }
    if p > 0 {
        assert forall|c: int| 0 < c < t.len() && parent(c) == p implies leq(
            t[parent(p)],
            #[trigger] t[c],
        ) by {
            assert(edge_ok(s, p));
            if c != k {
                assert(edge_ok(s, c));
                lemma_leq_trans(s[parent(p)], s[p], s[c]);
            }
        }
    }
}

/// With `m` the smaller child of `k`, and smaller than the value at `k`, one
/// step of sink exchanges the two.
proof fn lemma_sink_step<T: Ord>(s: Seq<T>, s0: Seq<T>, start: int, k: int, m: int)
    requires
        total_order::<T>(),
        s.len() == s0.len(),
        0 <= start <= k,
        k < m < s.len(),
        parent(m) == k,
        descends(k, start),
        forall|j: int|
            0 < j < s.len() && descends(j, start) && parent(j) != k && j != start
                ==> #[trigger] edge_ok(s, j),
        k != start ==> forall|c: int|
            0 < c < s.len() && parent(c) == k ==> leq(s[parent(k)], #[trigger] s[c]),
        forall|c: int| 0 < c < s.len() && parent(c) == k ==> leq(s[m], #[trigger] s[c]),
        leq(s[m], s[k]),
        k == start ==> s == s0,
        k != start ==> (s[start] == s0[2 * start + 1] || (2 * start + 2 < s.len() && s[start]
            == s0[2 * start + 2])),
    ensures
        descends(m, start),
        ({
            let t = swapped(s, m, k);
            &&& forall|j: int|
                0 < j < t.len() && descends(j, start) && parent(j) != m && j != start
                    ==> #[trigger] edge_ok(t, j)
            &&& forall|c: int| 0 < c < t.len() && parent(c) == m ==> leq(t[parent(m)], #[trigger] t[c])
            &&& t[start] == s0[2 * start + 1] || (2 * start + 2 < t.len() && t[start] == s0[2 * start + 2])
            &&& forall|j: int| 0 <= j < t.len() && !descends(j, start) ==> t[j] == s[j]
        }),
{
    let t = swapped(s, m, k);
    lemma_descends_child(m, start);
    assert forall|j: int|
        0 < j < t.len() && descends(j, start) && parent(j) != m && j != start implies #[trigger] edge_ok(t, j) by {
        if j == m {
        } else if parent(j) == k {
        } else if j == k {
            assert(leq(s[parent(k)], s[m]));
        } else {
            assert(edge_ok(s, j));
        }
    }
    assert forall|c: int| 0 < c < t.len() && parent(c) == m implies leq(t[parent(m)], #[trigger] t[c]) by {
        lemma_descends_child(c, start);
        assert(edge_ok(s, c));
    }
    if k == start {
        assert(m == 2 * start + 1 || m == 2 * start + 2);
        assert(t[start] == s0[m]);
    }
}

/// A slot lies at or below the root of any subtree holding it.
proof fn lemma_descends_ge(j: int, k: int)
    requires
        descends(j, k),
    ensures
        j >= k,
    decreases j,
{
    if j > k && j > 0 {
        lemma_descends_ge(parent(j), k);
    }
}

/// A child of a slot in the subtree of `k` is in it too.
proof fn lemma_descends_child(c: int, k: int)
    requires
        c > 0,
        descends(parent(c), k),
    ensures
        descends(c, k),
{
    lemma_descends_ge(parent(c), k);
}

/// A slot in the subtree of `k` is in the subtree of the parent of `k`.
proof fn lemma_descends_parent(a: int, k: int)
    requires
        descends(a, k),
        k > 0,
    ensures
        descends(a, parent(k)),
    decreases a,
{
    lemma_descends_ge(a, k);
    if a > k {
        assert(descends(parent(a), k));
        lemma_descends_parent(parent(a), k);
        assert(descends(parent(a), parent(k)));
    } else {
        assert(descends(parent(k), parent(k)));
    }
}

/// A heap-ordered array with a value appended is ready to swim it up.
proof fn lemma_push_ready<T: Ord>(s: Seq<T>, v: T)
    requires
        heap_ordered(s),
    ensures
        ordered_but_up(s.push(v), s.len() as int),
{
    let t = s.push(v);
    let k = s.len() as int;
    assert forall|j: int| 0 < j < t.len() && j != k implies #[trigger] edge_ok(t, j) by {
        assert(edge_ok(s, j));
    }
}

/// After the value at `i` is exchanged with the last one and the last slot is
/// dropped, only the edges at `i` can be out of order, and the parent of `i`
/// is no larger than the children of `i`.
proof fn lemma_remove_ready<T: Ord>(s: Seq<T>, i: int)
    requires
        total_order::<T>(),
        heap_ordered(s),
        0 <= i < s.len() - 1,
    ensures
        ({
            let t = swapped(s, i, s.len() - 1).drop_last();
            &&& ordered_but(t, 0, i)
            &&& i > 0 ==> forall|c: int|
                0 < c < t.len() && parent(c) == i ==> leq(t[parent(i)], #[trigger] t[c])
        }),
{
    let last = s.len() - 1;
    let t = swapped(s, i, last).drop_last();
    assert forall|j: int| 0 < j < t.len() && 0 <= parent(j) && parent(j) != i && j != i implies #[trigger] edge_ok(t, j) by {
        assert(edge_ok(s, j));
    }
    if i > 0 {
        assert forall|c: int| 0 < c < t.len() && parent(c) == i implies leq(t[parent(i)], #[trigger] t[c]) by {
            assert(edge_ok(s, i));
            assert(edge_ok(s, c));
            lemma_leq_trans(s[parent(i)], s[i], s[c]);
        }
    }
}

/// Dropping the last slot keeps a heap ordered.
proof fn lemma_drop_last_ordered<T: Ord>(s: Seq<T>)
    requires
        heap_ordered(s),
        s.len() > 0,
    ensures
        heap_ordered(s.drop_last()),
{
    let t = s.drop_last();
    assert forall|j: int| 0 < j < t.len() implies #[trigger] edge_ok(t, j) by {
        assert(edge_ok(s, j));
    }
}

/// `x` is a least value of `m`.
pub open spec fn is_least<T: Ord>(x: T, m: Multiset<T>) -> bool {
    &&& m.contains(x)
    &&& forall|y: T| #[trigger] m.contains(y) ==> leq(x, y)
}

/// The root of a heap-ordered array is a least value of it.
proof fn lemma_root_is_least<T: Ord>(s: Seq<T>)
    requires
        total_order::<T>(),
        heap_ordered(s),
        s.len() > 0,
    ensures
        is_least(s[0], s.to_multiset()),
{
    broadcast use vstd::seq_lib::group_to_multiset_ensures;

    assert(s.contains(s[0]));
    assert forall|y: T| #[trigger] s.to_multiset().contains(y) implies leq(s[0], y) by {
        let j = choose|j: int| 0 <= j < s.len() && s[j] == y;
        lemma_root_least(s, j);
    }
}

/// An indexed min-priority queue.
pub struct PriorityQueue<T> {
    heap: Vec<T>,
    map: BTreeMap<T, usize>,
}

impl<T: OrderedKey> View for PriorityQueue<T> {
    type V = Seq<T>;

    /// The heap array, root first.
    closed spec fn view(&self) -> Seq<T> {
        self.heap@
    }
}

impl<T: OrderedKey> PriorityQueue<T> {
    /// The position index: value to slot.
    pub closed spec fn index(&self) -> Map<T, usize> {
        self.map@
    }

    /// The values held, with their multiplicities.
    pub open spec fn elems(&self) -> Multiset<T> {
        self@.to_multiset()
    }

    /// The queue's invariant: the array is a min-heap and the index agrees
    /// with it.
    pub open spec fn wf(&self) -> bool {
        &&& heap_ordered(self@)
        &&& index_consistent(self@, self.index())
    }

    /// An empty queue; `size` is a hint for the room to reserve.
    pub fn new(size: usize) -> (r: Self)
        ensures
            r.wf(),
            r@ == Seq::<T>::empty(),
    {
        Self { heap: Vec::with_capacity(size), map: BTreeMap::new() }
    }

    /// A queue that holds the values of `slice`, built bottom-up: the values
    /// are laid out in order, then every inner slot, from the last to the
    /// root, is sunk into place.
    pub fn from(slice: &[T]) -> (r: Self)
        ensures
            r.wf(),
            r.elems() == slice@.to_multiset(),
            r@.len() == slice@.len(),
    {
        proof {
            T::lemma_total_order();
        }
        let heap_size = slice.len();
        let mut priority_queue = Self::new(heap_size);
        let mut i: usize = 0;
        while i < heap_size
            invariant
                heap_size == slice@.len(),
                i <= heap_size,
                priority_queue@ == slice@.take(i as int),
                index_consistent(priority_queue@, priority_queue.index()),
            decreases heap_size - i,
        {
            proof {
                let s = priority_queue@;
                let m = priority_queue.index();
                assert(slice@.take(i + 1) == s.push(slice@[i as int]));
                assert forall|k: int| 0 <= k < s.len() implies #[trigger] m.contains_key(s[k]) by {}
            }
            let ghost before = priority_queue.index();
            priority_queue.map_add(slice[i], i);
            priority_queue.heap.push(slice[i]);
            proof {
                let s = priority_queue@;
                let m = priority_queue.index();
                let v = slice@[i as int];
                assert forall|u: T| #[trigger] m.contains_key(u) implies m[u] < s.len() && s[m[u] as int] == u by {
                    if u != v {
                        assert(before.contains_key(u));
                    }
                }
                assert forall|k: int| 0 <= k < s.len() implies #[trigger] m.contains_key(s[k]) by {
                    if k < i {
                        assert(slice@.take(i as int)[k] == s[k]);
                    }
                }
            }
            i += 1;
        }
        proof {
            assert(slice@.take(heap_size as int) == slice@);
        }
        let mut i: usize = heap_size / 2;
        while i > 0
            invariant
                total_order::<T>(),
                i <= heap_size / 2,
                priority_queue@.len() == heap_size,
                priority_queue.elems() == slice@.to_multiset(),
                index_consistent(priority_queue@, priority_queue.index()),
                forall|j: int|
                    0 < j < heap_size && i <= parent(j) ==> #[trigger] edge_ok(priority_queue@, j),
            decreases i,
        {
            i -= 1;
            proof {
                let s = priority_queue@;
                assert forall|j: int|
                    0 < j < s.len() && descends(j, i as int) && parent(j) != i && j != i implies #[trigger] edge_ok(s, j) by {
                    lemma_descends_ge(j, i as int);
                    lemma_descends_ge(parent(j), i as int);
                }
            }
            let ghost before = priority_queue@;
            priority_queue.sink(i);
            proof {
                let s = priority_queue@;
                assert forall|j: int| 0 < j < heap_size && i <= parent(j) implies #[trigger] edge_ok(s, j) by {
                    if !descends(j, i as int) {
                        if descends(parent(j), i as int) {
                            lemma_descends_child(j, i as int);
                        }
                        assert(parent(j) != i);
                        assert(edge_ok(before, j));
                    } else {
                        lemma_descends_ge(j, i as int);
                    }
                }
            }
        }
        priority_queue
    }

    pub fn is_empty(&self) -> (r: bool)
        ensures
            r == (self@.len() == 0),
    {
        self.heap.is_empty()
    }

    /// Empties the array and the index.
    pub fn clear(&mut self)
        ensures
            final(self).wf(),
            final(self)@ == Seq::<T>::empty(),
    {
        self.heap.clear();
        self.map.clear();
    }

    pub fn size(&self) -> (r: usize)
        ensures
            r == self@.len(),
    {
        self.heap.len()
    }

    /// The number of entries in the index.
    pub fn index_len(&self) -> (r: usize)
        ensures
            r == self.index().len(),
    {
        proof {
            T::lemma_total_order();
        }
        self.map.len()
    }

    /// The heap array, root first.
    pub fn as_slice(&self) -> (r: &[T])
        ensures
            r@ == self@,
    {
        self.heap.as_slice()
    }

    /// The least value, left in place; `None` when the queue is empty.
    pub fn peel(&self) -> (r: Option<&T>)
        requires
            self.wf(),
        ensures
            r is None <==> self@.len() == 0,
            r matches Some(x) ==> *x == self@[0] && is_least(*x, self.elems()),
    {
        if self.is_empty() {
            return None;
        }
        proof {
            T::lemma_total_order();
            lemma_root_is_least(self@);
        }
        Some(&self.heap[0])
    }

    /// Removes and returns the least value; `None` when the queue is empty.
    pub fn poll(&mut self) -> (r: Option<T>)
        requires
            old(self).wf(),
        ensures
            final(self).wf(),
            r is None <==> old(self)@.len() == 0,
            r is None ==> final(self)@ == old(self)@,
            r matches Some(x) ==> {
                &&& x == old(self)@[0]
                &&& is_least(x, old(self).elems())
                &&& final(self).elems() == old(self).elems().remove(x)
                &&& final(self)@.len() == old(self)@.len() - 1
            },
    {
        proof {
            if self@.len() > 0 {
                T::lemma_total_order();
                lemma_root_is_least(self@);
            }
        }
        self.remove_at(0)
    }

    /// Polls until the queue is empty and returns the values in the order
    /// they came out: every value the queue held, least first.
    pub fn drain(&mut self) -> (r: Vec<T>)
        requires
            old(self).wf(),
        ensures
            final(self).wf(),
            final(self)@.len() == 0,
            r@.len() == old(self)@.len(),
            r@.to_multiset() == old(self).elems(),
            forall|i: int, j: int| 0 <= i <= j < r@.len() ==> leq(#[trigger] r@[i], #[trigger] r@[j]),
    {
        proof {
            T::lemma_total_order();
        }
        let mut out: Vec<T> = Vec::new();
        proof {
            broadcast use vstd::seq_lib::group_to_multiset_ensures;

            assert(out@.to_multiset() =~= Multiset::empty());
            assert(Multiset::<T>::empty().add(self.elems()) =~= self.elems());
        }
        while !self.is_empty()
            invariant
                total_order::<T>(),
                self.wf(),
                out@.len() + self@.len() == old(self)@.len(),
                out@.to_multiset().add(self.elems()) == old(self).elems(),
                forall|i: int, j: int| 0 <= i <= j < out@.len() ==> leq(#[trigger] out@[i], #[trigger] out@[j]),
                forall|i: int, y: T| 0 <= i < out@.len() && #[trigger] self.elems().contains(y) ==> leq(
                    #[trigger] out@[i],
                    y,
                ),
            decreases self@.len(),
        {
            let ghost before = self.elems();
            match self.poll() {
                Some(x) => {
                    proof {
                        broadcast use vstd::seq_lib::group_to_multiset_ensures;

                        lemma_leq_refl(x);
                        assert forall|i: int| 0 <= i < out@.len() implies leq(#[trigger] out@[i], x) by {}
                        assert(out@.push(x).to_multiset().add(self.elems()) =~= out@.to_multiset().add(before));
                    }
                    let ghost prev = out@;
                    out.push(x);
                    proof {
                        assert forall|i: int, y: T| 0 <= i < out@.len() && #[trigger] self.elems().contains(y) implies leq(
                            #[trigger] out@[i],
                            y,
                        ) by {
                            assert(before.contains(y));
                            if i < prev.len() {
                                assert(out@[i] == prev[i]);
                            }
                        }
                    }
                },
                None => {},
            }
        }
        proof {
            broadcast use vstd::seq_lib::group_to_multiset_ensures;

            assert(self.elems() =~= Multiset::empty());
            assert(out@.to_multiset().add(self.elems()) =~= out@.to_multiset());
        }
        out
    }

    /// Whether `elem` is in the queue, by a lookup in the index.
    pub fn contains(&self, elem: T) -> (r: bool)
        requires
            self.wf(),
        ensures
            r == self@.contains(elem),
    {
        proof {
            T::lemma_total_order();
            if self@.contains(elem) {
                let j = choose|j: int| 0 <= j < self@.len() && self@[j] == elem;
                assert(self.index().contains_key(self@[j]));
            }
        }
        self.map.contains_key(&elem)
    }

    /// Appends `elem` as the last slot, records it in the index, and swims
    /// it up.
    pub fn add(&mut self, elem: T)
        requires
            old(self).wf(),
        ensures
            final(self).wf(),
            final(self).elems() == old(self).elems().insert(elem),
            final(self)@.len() == old(self)@.len() + 1,
    {
        proof {
            T::lemma_total_order();
        }
        let heap_size = self.size();
        self.heap.push(elem);
        self.map_add(elem, heap_size);
        proof {
            broadcast use vstd::seq_lib::group_to_multiset_ensures;

            let s = self@;
            let m = self.index();
            assert forall|u: T| #[trigger] m.contains_key(u) implies m[u] < s.len() && s[m[u] as int] == u by {
                if u != elem {
                    assert(old(self).index().contains_key(u));
                }
            }
            assert forall|k: int| 0 <= k < s.len() implies #[trigger] m.contains_key(s[k]) by {
                if k < heap_size {
                    assert(old(self).index().contains_key(old(self)@[k]));
                }
            }
            lemma_push_ready(old(self)@, elem);
        }
        self.swim(heap_size)
    }

    /// Removes one occurrence of `elem`, the one that the index names;
    /// `false`, and no change, when `elem` is not in the queue.
    pub fn remove(&mut self, elem: T) -> (r: bool)
        requires
            old(self).wf(),
        ensures
            final(self).wf(),
            r == old(self)@.contains(elem),
            r ==> final(self).elems() == old(self).elems().remove(elem),
            r ==> final(self)@.len() == old(self)@.len() - 1,
            r ==> old(self).index().contains_key(elem) && removed_slot(
                old(self)@,
                final(self)@,
                old(self).index()[elem] as int,
            ),
            !r ==> final(self)@ == old(self)@ && final(self).index() == old(self).index(),
    {
        proof {
            T::lemma_total_order();
            if self@.contains(elem) {
                let j = choose|j: int| 0 <= j < self@.len() && self@[j] == elem;
                assert(self.index().contains_key(self@[j]));
            }
        }
        let possible_index = match self.map.get(&elem) {
            Some(index) => Some(*index),
            None => None,
        };
        let x = possible_index.is_some();
        if let Some(index) = possible_index {
            self.remove_at(index);
        }
        x
    }

    /// Removes the value at slot `index`: the last value takes its place and
    /// is sunk, or, where it does not move down, swum up.
    pub fn remove_at(&mut self, index: usize) -> (r: Option<T>)
        requires
            old(self).wf(),
            old(self)@.len() == 0 || index < old(self)@.len(),
        ensures
            final(self).wf(),
            old(self)@.len() == 0 ==> r is None && final(self)@ == old(self)@ && final(self).index()
                == old(self).index(),
            old(self)@.len() > 0 ==> r == Some(old(self)@[index as int]) && final(self).elems()
                == old(self).elems().remove(old(self)@[index as int]) && final(self)@.len()
                == old(self)@.len() - 1,
            old(self)@.len() > 0 ==> removed_slot(old(self)@, final(self)@, index as int),
    {
        if self.is_empty() {
            return None;
        }
        proof {
            T::lemma_total_order();
        }
        let new_heap_size = self.size() - 1;
        let removed_data = self.heap[index];
        let ghost s0 = self@;
        self.swap(index, new_heap_size);
        let ghost s1 = self@;
        self.heap.pop();
        self.map_remove(&removed_data);
        proof {
            broadcast use vstd::seq_lib::group_to_multiset_ensures;

            assert(s1.remove(new_heap_size as int) =~= s1.drop_last());
            assert(self@ == s1.drop_last());
            let s = self@;
            let m = self.index();
            assert forall|u: T| #[trigger] m.contains_key(u) implies m[u] < s.len() && s[m[u] as int] == u by {
                assert(s1[new_heap_size as int] == removed_data);
            }
        }
        // Where the value was held more than once, a copy of it is still in
        // the array, and the index must name it.
        self.map_restore(removed_data);
        if index == new_heap_size {
            proof {
                assert(s1 =~= s0);
                lemma_drop_last_ordered(s0);
            }
            return Some(removed_data);
        }
        proof {
            lemma_remove_ready(s0, index as int);
        }
        let ghost s2 = self@;
        proof {
            assert forall|j: int|
                0 < j < s2.len() && descends(j, index as int) && parent(j) != index && j != index implies #[trigger] edge_ok(s2, j) by {
                lemma_descends_ge(j, index as int);
            }
        }
        let rest = self.sink(index);
        if rest == index {
            proof {
                let s = self@;
                assert forall|j: int| 0 < j < s.len() && j != index implies #[trigger] edge_ok(s, j) by {
                    if parent(j) == index {
                        lemma_descends_child(j, index as int);
                    }
                }
            }
            self.swim(index);
        } else {
            proof {
                let s = self@;
                assert forall|j: int| 0 < j < s.len() implies #[trigger] edge_ok(s, j) by {
                    if !descends(j, index as int) {
                        if descends(parent(j), index as int) {
                            lemma_descends_child(j, index as int);
                        }
                        if parent(j) == index {
                            lemma_descends_child(j, index as int);
                        }
                        assert(edge_ok(s2, j));
                    }
                    if j == index {
                        if descends(parent(j), index as int) {
                            lemma_descends_ge(parent(j), index as int);
                        }
                        assert(s[parent(j)] == s2[parent(j)]);
                        assert(s2 == swapped(s0, index as int, new_heap_size as int).drop_last());
                        let c = if s[j] == s2[2 * j + 1] { 2 * j + 1 } else { 2 * j + 2 };
                        assert(parent(c) == j);
                        assert(leq(s2[parent(j)], s2[c]));
                    }
                }
            }
        }
        Some(removed_data)
    }

    /// After a value has left the array and the index, points the index at a
    /// copy of it that is still in the array, if there is one.
    fn map_restore(&mut self, value: T)
        requires
            forall|u: T| #[trigger] old(self).index().contains_key(u) ==> old(self).index()[u] < old(self)@.len()
                && old(self)@[old(self).index()[u] as int] == u,
            forall|k: int|
                0 <= k < old(self)@.len() && old(self)@[k] != value ==> #[trigger] old(self).index().contains_key(
                    old(self)@[k],
                ),
        ensures
            final(self)@ == old(self)@,
            index_consistent(final(self)@, final(self).index()),
    {
        proof {
            T::lemma_total_order();
            lemma_eq_obeyed::<T>();
        }
        let n = self.heap.len();
        let mut i: usize = 0;
        while i < n
            invariant
                total_order::<T>(),
                n == self@.len(),
                self@ == old(self)@,
                self.index() == old(self).index(),
                forall|u: T| #[trigger] old(self).index().contains_key(u) ==> old(self).index()[u] < old(self)@.len()
                    && old(self)@[old(self).index()[u] as int] == u,
                forall|k: int|
                    0 <= k < old(self)@.len() && old(self)@[k] != value ==> #[trigger] old(self).index().contains_key(
                        old(self)@[k],
                    ),
                forall|k: int| 0 <= k < i ==> self@[k] != value,
            decreases n - i,
        {
            proof {
                lemma_eq_obeyed::<T>();
            }
            if self.heap[i] == value {
                self.map_add(value, i);
                proof {
                    let s = self@;
                    let m = self.index();
                    assert forall|u: T| #[trigger] m.contains_key(u) implies m[u] < s.len() && s[m[u] as int] == u by {
                        if u != value {
                            assert(old(self).index().contains_key(u));
                        }
                    }
                    assert forall|k: int| 0 <= k < s.len() implies #[trigger] m.contains_key(s[k]) by {
                        if s[k] != value {
                            assert(old(self).index().contains_key(old(self)@[k]));
                        }
                    }
                }
                return;
            }
            i += 1;
        }
    }

    /// Records that `value` is at slot `index`.
    pub fn map_add(&mut self, value: T, index: usize)
        ensures
            final(self)@ == old(self)@,
            final(self).index() == old(self).index().insert(value, index),
    {
        proof {
            T::lemma_total_order();
        }
        self.map.insert(value, index);
    }

    /// Drops the index entry of `value`.
    pub fn map_remove(&mut self, value: &T)
        ensures
            final(self)@ == old(self)@,
            final(self).index() == old(self).index().remove(*value),
    {
        proof {
            T::lemma_total_order();
        }
        self.map.remove(value);
    }

    pub fn less(&self, i: usize, j: usize) -> (r: bool)
        requires
            i < self@.len(),
            j < self@.len(),
        ensures
            r == leq(self@[i as int], self@[j as int]),
    {
        proof {
            T::lemma_total_order();
            lemma_partial_cmp_obeyed::<T>();
        }
        let node1 = &self.heap[i];
        let node2 = &self.heap[j];
        node1.le(node2)
    }

    pub fn parent_index(index: usize) -> (r: usize)
        ensures
            index > 0 ==> r == parent(index as int),
            index == 0 ==> r == 0,
    {
        if index > 0 {
            (index - 1) / 2
        } else {
            0
        }
    }

    /// Exchanges slots `i` and `j`, and moves the index with them.
    pub fn swap(&mut self, i: usize, j: usize)
        requires
            i < old(self)@.len(),
            j < old(self)@.len(),
            index_consistent(old(self)@, old(self).index()),
        ensures
            final(self)@ == swapped(old(self)@, i as int, j as int),
            final(self).elems() == old(self).elems(),
            index_consistent(final(self)@, final(self).index()),
            final(self).index() == old(self).index().insert(old(self)@[i as int], j).insert(
                old(self)@[j as int],
                i,
            ),
    {
        proof {
            T::lemma_total_order();
            lemma_swap_multiset(self@, i as int, j as int);
        }
        let i_elem = self.heap[i];
        let j_elem = self.heap[j];
        self.heap[i] = j_elem;
        self.heap[j] = i_elem;
        self.map_swap(i_elem, j_elem, i, j);
        proof {
            let s = self@;
            let m = self.index();
            assert forall|v: T| #[trigger] m.contains_key(v) implies m[v] < s.len() && s[m[v] as int]
                == v by {
                if v != i_elem && v != j_elem {
                    assert(old(self).index().contains_key(v));
                }
            }
            assert forall|k: int| 0 <= k < s.len() implies #[trigger] m.contains_key(s[k]) by {
                if k != i && k != j {
                    assert(old(self).index().contains_key(old(self)@[k]));
                }
            }
        }
    }

    /// Records that `i_elem`, which was at slot `i`, is now at slot `j`, and
    /// `j_elem` at slot `i`; only entries already in the index move.
    pub fn map_swap(&mut self, i_elem: T, j_elem: T, i: usize, j: usize)
        ensures
            final(self)@ == old(self)@,
            final(self).index() == moved_entry(moved_entry(old(self).index(), i_elem, j), j_elem, i),
    {
        proof {
            T::lemma_total_order();
        }
        if self.map.contains_key(&i_elem) {
            self.map.insert(i_elem, j);
        }
        if self.map.contains_key(&j_elem) {
            self.map.insert(j_elem, i);
        }
    }

    /// Moves the value at `index` up while it is no larger than its parent;
    /// only the slots on the path from `index` to the root change.
    pub fn swim(&mut self, index: usize)
        requires
            index < old(self)@.len(),
            index_consistent(old(self)@, old(self).index()),
            ordered_but_up(old(self)@, index as int),
        ensures
            final(self).wf(),
            final(self).elems() == old(self).elems(),
            final(self)@.len() == old(self)@.len(),
            forall|j: int|
                0 <= j < final(self)@.len() && !descends(index as int, j) ==> final(self)@[j]
                    == old(self)@[j],
    {
        proof {
            T::lemma_total_order();
        }
        let ghost start = index as int;
        let mut index = index;
        while index > 0 && self.less(index, Self::parent_index(index))
            invariant
                total_order::<T>(),
                index < self@.len(),
                descends(start, index as int),
                forall|j: int| 0 <= j < self@.len() && !descends(start, j) ==> self@[j] == old(self)@[j],
                self@.len() == old(self)@.len(),
                self.elems() == old(self).elems(),
                index_consistent(self@, self.index()),
                ordered_but_up(self@, index as int),
            decreases index,
        {
            let parent = Self::parent_index(index);
            proof {
                lemma_swim_step(self@, index as int);
                lemma_descends_parent(start, index as int);
            }
            self.swap(parent, index);
            index = parent;
        }
        proof {
            if index > 0 {
                lemma_not_leq(self@[index as int], self@[parent(index as int)]);
                assert(edge_ok(self@, index as int));
            }
            assert forall|j: int| 0 < j < self@.len() implies #[trigger] edge_ok(self@, j) by {
                if j != index {
                }
            }
        }
    }

    /// Moves the value at `index` down while a child is smaller, and returns
    /// the slot where it came to rest. The subtrees below `index` must be
    /// heaps; afterwards the whole subtree of `index` is one, and no slot
    /// outside it has changed.
    pub fn sink(&mut self, index: usize) -> (r: usize)
        requires
            index < old(self)@.len(),
            index_consistent(old(self)@, old(self).index()),
            children_heaps(old(self)@, index as int),
        ensures
            index <= r < final(self)@.len(),
            final(self)@.len() == old(self)@.len(),
            final(self).elems() == old(self).elems(),
            index_consistent(final(self)@, final(self).index()),
            forall|j: int|
                0 < j < final(self)@.len() && descends(j, index as int) && j != index
                    ==> #[trigger] edge_ok(final(self)@, j),
            forall|j: int|
                0 <= j < final(self)@.len() && !descends(j, index as int) ==> final(self)@[j]
                    == old(self)@[j],
            r == index ==> final(self)@ == old(self)@,
            r != index ==> 2 * index + 1 < old(self)@.len(),
            r != index ==> (final(self)@[index as int] == old(self)@[2 * index + 1] || (2 * index
                + 2 < old(self)@.len() && final(self)@[index as int] == old(self)@[2 * index + 2])),
    {
        proof {
            T::lemma_total_order();
        }
        let ghost s0 = self@;
        let n = self.heap.len();
        let mut k = index;
        loop
            invariant
                total_order::<T>(),
                n == self@.len(),
                s0 == old(self)@,
                n == s0.len(),
                index <= k < n,
                descends(k as int, index as int),
                self.elems() == old(self).elems(),
                index_consistent(self@, self.index()),
                forall|j: int|
                    0 < j < n && descends(j, index as int) && parent(j) != k && j != index
                        ==> #[trigger] edge_ok(self@, j),
                k != index ==> forall|c: int|
                    0 < c < n && parent(c) == k ==> leq(self@[parent(k as int)], #[trigger] self@[c]),
                k == index ==> self@ == s0,
                k != index ==> 2 * index + 1 < n,
                k != index ==> (self@[index as int] == s0[2 * index + 1] || (2 * index + 2 < n
                    && self@[index as int] == s0[2 * index + 2])),
                forall|j: int| 0 <= j < n && !descends(j, index as int) ==> self@[j] == s0[j],
            ensures
                index <= k < n,
                n == self@.len(),
                self.elems() == old(self).elems(),
                index_consistent(self@, self.index()),
                forall|j: int|
                    0 < j < n && descends(j, index as int) && j != index ==> #[trigger] edge_ok(self@, j),
                k == index ==> self@ == s0,
                k != index ==> 2 * index + 1 < n,
                k != index ==> (self@[index as int] == s0[2 * index + 1] || (2 * index + 2 < n
                    && self@[index as int] == s0[2 * index + 2])),
                forall|j: int| 0 <= j < n && !descends(j, index as int) ==> self@[j] == s0[j],
            decreases n - k,
        {
            if k >= n / 2 {
                proof {
                    assert forall|j: int|
                        0 < j < n && descends(j, index as int) && j != index implies #[trigger] edge_ok(self@, j) by {
                        if parent(j) == k {
                            assert(j >= 2 * k + 1);
                        }
                    }
                }
                break;
            }
            let left = 2 * k + 1;
            let right = left + 1;
            let mut smallest = left;
            if right < n && self.less(right, left) {
                smallest = right;
            }
            proof {
                if smallest == left && right < n {
                    lemma_leq_total(self@[left as int], self@[right as int]);
                }
                lemma_leq_refl(self@[smallest as int]);
                assert forall|c: int| 0 < c < n && parent(c) == k implies leq(
                    self@[smallest as int],
                    #[trigger] self@[c],
                ) by {
                    assert(c == left || c == right);
                }
            }
            if self.less(k, smallest) {
                proof {
                    assert forall|j: int|
                        0 < j < n && descends(j, index as int) && j != index implies #[trigger] edge_ok(self@, j) by {
                        if parent(j) == k {
                            lemma_leq_trans(self@[k as int], self@[smallest as int], self@[j]);
                        }
                    }
                }
                break;
            }
            proof {
                lemma_not_leq(self@[k as int], self@[smallest as int]);
                lemma_sink_step(self@, s0, index as int, k as int, smallest as int);
            }
            self.swap(smallest, k);
            k = smallest;
        }
        k
    }
}

impl<T: OrderedKey> Default for PriorityQueue<T> {
    fn default() -> (r: Self)
        ensures
            r.wf(),
            r@ == Seq::<T>::empty(),
    {
        Self::new(1)
    }
}

/// The subtree rooted at slot `k` is a min-heap: `k` is no larger than its
/// children, and the subtrees below them are min-heaps.
pub open spec fn min_heap_at<T: Ord>(s: Seq<T>, k: int) -> bool
    decreases s.len() - k,
{
    if k < 0 || k >= s.len() {
        true
    } else {
        &&& (2 * k + 1 < s.len() ==> leq(s[k], s[2 * k + 1]) && min_heap_at(s, 2 * k + 1))
        &&& (2 * k + 2 < s.len() ==> leq(s[k], s[2 * k + 2]) && min_heap_at(s, 2 * k + 2))
    }
}

/// Checks that the subtree of `heap` rooted at slot `k` is a min-heap.
pub fn is_min_heap<T: OrderedKey>(k: usize, heap: &[T]) -> (r: bool)
    ensures
        r == min_heap_at(heap@, k as int),
    decreases heap@.len() - k,
{
    proof {
        T::lemma_total_order();
        lemma_partial_cmp_obeyed::<T>();
    }
    let n = heap.len();
    if k >= n {
        return true;
    }
    if k >= n / 2 {
        return true;
    }
    let left = 2 * k + 1;
    let right = left + 1;
    if !heap[k].le(&heap[left]) {
        return false;
    }
    if right < n && !heap[k].le(&heap[right]) {
        return false;
    }
    is_min_heap(left, heap) && is_min_heap(right, heap)
}

/// Slot `j` lies in the subtree rooted at slot `k`.
pub open spec fn descends(j: int, k: int) -> bool
    decreases j,
{
    if j <= k || j <= 0 {
        j == k
    } else {
        descends(parent(j), k)
    }
}

proof fn lemma_descends_root(j: int)
    requires
        j >= 0,
    ensures
        descends(j, 0),
    decreases j,
{
    if j > 0 {
        lemma_descends_root(parent(j));
    }
}

proof fn lemma_min_heap_at_descendant<T: Ord>(s: Seq<T>, k: int, j: int)
    requires
        0 <= k,
        min_heap_at(s, k),
        descends(j, k),
    ensures
        min_heap_at(s, j),
    decreases j,
{
    if j > k && j > 0 {
        lemma_min_heap_at_descendant(s, k, parent(j));
        assert(j == 2 * parent(j) + 1 || j == 2 * parent(j) + 2);
    }
}

proof fn lemma_ordered_min_heap_at<T: Ord>(s: Seq<T>, k: int)
    requires
        heap_ordered(s),
    ensures
        min_heap_at(s, k),
    decreases s.len() - k,
{
    if 0 <= k < s.len() {
        if 2 * k + 1 < s.len() {
            assert(edge_ok(s, 2 * k + 1));
            lemma_ordered_min_heap_at(s, 2 * k + 1);
        }
        if 2 * k + 2 < s.len() {
            assert(edge_ok(s, 2 * k + 2));
            lemma_ordered_min_heap_at(s, 2 * k + 2);
        }
    }
}

/// The validator run from the root accepts exactly the heap-ordered arrays.
pub proof fn lemma_min_heap_at_root<T: Ord>(s: Seq<T>)
    ensures
        min_heap_at(s, 0) <==> heap_ordered(s),
{
    if heap_ordered(s) {
        lemma_ordered_min_heap_at(s, 0);
    }
    if min_heap_at(s, 0) {
        assert forall|j: int| 0 < j < s.len() implies #[trigger] edge_ok(s, j) by {
            lemma_descends_root(parent(j));
            lemma_min_heap_at_descendant(s, 0, parent(j));
            assert(j == 2 * parent(j) + 1 || j == 2 * parent(j) + 2);
        }
    }
}

/// Every queue passes the validator, at every slot: whatever sequence of
/// operations built it, the array is a min-heap.
pub proof fn lemma_validator_accepts<T: OrderedKey>(q: PriorityQueue<T>, k: int)
    requires
        q.wf(),
    ensures
        min_heap_at(q@, k),
{
    lemma_ordered_min_heap_at(q@, k);
}

/// The index has an entry for exactly the distinct values in the queue, each
/// naming a slot that holds it; so where no value is repeated it has as many
/// entries as the queue has values.
pub proof fn lemma_index_matches<T: OrderedKey>(q: PriorityQueue<T>)
    requires
        q.wf(),
    ensures
        q.index().dom() == q@.to_set(),
        forall|v: T| #[trigger] q.index().contains_key(v) ==> q@[q.index()[v] as int] == v,
        q@.no_duplicates() ==> q.index().len() == q@.len(),
{
    assert forall|v: T| #[trigger] q.index().dom().contains(v) <==> q@.to_set().contains(v) by {
        if q@.contains(v) {
            let j = choose|j: int| 0 <= j < q@.len() && q@[j] == v;
            assert(q.index().contains_key(q@[j]));
        }
        if q.index().contains_key(v) {
            assert(q@[q.index()[v] as int] == v);
        }
    }
    assert(q.index().dom() =~= q@.to_set());
    if q@.no_duplicates() {
        q@.unique_seq_to_set();
    }
}

/// Polling a queue again and again hands its values out least first: each
/// poll returns a least value of what is left, so the values come out in
/// non-decreasing order, and once the queue is empty they are exactly the
/// values that were put in. `states[i]` is what the queue holds before the
/// `i`-th poll, which returns `out[i]`.
pub proof fn lemma_polls_in_order<T: OrderedKey>(states: Seq<Multiset<T>>, out: Seq<T>)
    requires
        states.len() == out.len() + 1,
        forall|i: int|
            0 <= i < out.len() ==> is_least(#[trigger] out[i], states[i]) && states[i + 1]
                == states[i].remove(out[i]),
    ensures
        forall|i: int, j: int| 0 <= i <= j < out.len() ==> leq(#[trigger] out[i], #[trigger] out[j]),
        out.to_multiset().add(states[out.len() as int]) == states[0],
{
    assert forall|i: int, j: int| 0 <= i <= j < out.len() implies leq(#[trigger] out[i], #[trigger] out[j]) by {
        lemma_states_shrink(states, out, i, j);
        assert(is_least(out[j], states[j]));
        assert(is_least(out[i], states[i]));
        assert(states[j].count(out[j]) <= states[i].count(out[j]));
        assert(states[i].contains(out[j]));
    }
    lemma_polls_multiset(states, out, out.len() as int);
    assert(out.take(out.len() as int) == out);
}

/// Round trip: when the queue held exactly the values of `inserted` (as
/// `add` leaves it after adding them to an empty queue), polling it as many
/// times hands out those same values, in non-decreasing order.
pub proof fn lemma_round_trip<T: OrderedKey>(
    inserted: Seq<T>,
    states: Seq<Multiset<T>>,
    out: Seq<T>,
)
    requires
        states.len() == out.len() + 1,
        out.len() == inserted.len(),
        states[0] == inserted.to_multiset(),
        forall|i: int|
            0 <= i < out.len() ==> is_least(#[trigger] out[i], states[i]) && states[i + 1]
                == states[i].remove(out[i]),
    ensures
        forall|i: int, j: int| 0 <= i <= j < out.len() ==> leq(#[trigger] out[i], #[trigger] out[j]),
        out.to_multiset() == inserted.to_multiset(),
{
    broadcast use vstd::seq_lib::group_to_multiset_ensures;
    broadcast use vstd::multiset::lemma_multiset_empty_len;

    lemma_polls_in_order(states, out);
    let last = states[out.len() as int];
    assert(out.to_multiset().add(last).len() == out.len() + last.len());
    assert(last.len() == 0);
    assert(out.to_multiset().add(last) =~= out.to_multiset());
}

proof fn lemma_states_shrink<T: OrderedKey>(states: Seq<Multiset<T>>, out: Seq<T>, i: int, j: int)
    requires
        states.len() == out.len() + 1,
        forall|i: int|
            0 <= i < out.len() ==> is_least(#[trigger] out[i], states[i]) && states[i + 1]
                == states[i].remove(out[i]),
        0 <= i <= j <= out.len(),
    ensures
        states[j].subset_of(states[i]),
    decreases j - i,
{
    if j > i {
        lemma_states_shrink(states, out, i, j - 1);
        assert(is_least(out[j - 1], states[j - 1]));
    }
}

proof fn lemma_polls_multiset<T: OrderedKey>(states: Seq<Multiset<T>>, out: Seq<T>, k: int)
    requires
        states.len() == out.len() + 1,
        forall|i: int|
            0 <= i < out.len() ==> is_least(#[trigger] out[i], states[i]) && states[i + 1]
                == states[i].remove(out[i]),
        0 <= k <= out.len(),
    ensures
        out.take(k).to_multiset().add(states[k]) == states[0],
    decreases k,
{
    broadcast use vstd::seq_lib::group_to_multiset_ensures;

    if k == 0 {
        assert(out.take(0).to_multiset() =~= Multiset::empty());
        assert(Multiset::<T>::empty().add(states[0]) =~= states[0]);
    } else {
        lemma_polls_multiset(states, out, k - 1);
        assert(is_least(out[k - 1], states[k - 1]));
        assert(out.take(k) == out.take(k - 1).push(out[k - 1]));
        assert(out.take(k).to_multiset().add(states[k]) =~= out.take(k - 1).to_multiset().add(
            states[k - 1],
        ));
    }
}

} // verus!
