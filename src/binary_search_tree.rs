//! An unbalanced binary search tree that holds a set of distinct values.
use crate::order::{OrderedKey, leq, lemma_leq_antisym, lemma_partial_cmp_obeyed, lemma_leq_refl, lemma_leq_total, lemma_lt_obeyed, lemma_lt_trans, lt};
use vstd::prelude::*;
use vstd::set_lib::lemma_set_disjoint_lens;

verus! {

pub struct Node<T> {
    pub data: T,
    pub left: Option<Box<Node<T>>>,
    pub right: Option<Box<Node<T>>>,
}

impl<T> Node<T> {
    /// A boxed node holding `elem` above the subtrees `left` and `right`.
    pub fn new(left: Option<Box<Node<T>>>, right: Option<Box<Node<T>>>, elem: T) -> (r: Box<Node<T>>)
        ensures
            r.data == elem,
            r.left == left,
            r.right == right,
    {
        Box::new(Self { data: elem, left, right })
    }

    /// The values in this subtree.
    pub open spec fn elems(self) -> Set<T>
        decreases self,
    {
        let l = match self.left {
            Some(node) => node.elems(),
            None => Set::empty(),
        };
        let r = match self.right {
            Some(node) => node.elems(),
            None => Set::empty(),
        };
        l.union(r).insert(self.data)
    }

    /// The number of nodes in this subtree.
    pub open spec fn count(self) -> nat
        decreases self,
    {
        1 + match self.left {
            Some(node) => node.count(),
            None => 0,
        } + match self.right {
            Some(node) => node.count(),
            None => 0,
        }
    }

    /// `m` is one of the nodes of this subtree.
    pub open spec fn holds(self, m: Node<T>) -> bool
        decreases self,
    {
        ||| self == m
        ||| match self.left {
            Some(node) => node.holds(m),
            None => false,
        }
        ||| match self.right {
            Some(node) => node.holds(m),
            None => false,
        }
    }

    /// The values of this subtree in pre-order: the node's own value, then
    /// those of its left subtree, then those of its right subtree.
    pub open spec fn preorder(self) -> Seq<T>
        decreases self,
    {
        seq![self.data] + match self.left {
            Some(node) => node.preorder(),
            None => Seq::empty(),
        } + match self.right {
            Some(node) => node.preorder(),
            None => Seq::empty(),
        }
    }

    /// The number of nodes on the longest path down from this node.
    pub open spec fn height(self) -> nat
        decreases self,
    {
        let l = match self.left {
            Some(node) => node.height(),
            None => 0,
        };
        let r = match self.right {
            Some(node) => node.height(),
            None => 0,
        };
        1 + if l >= r {
            l
        } else {
            r
        }
    }
}

/// The number of nodes of an optional subtree.
pub open spec fn link_count<T>(link: Option<Box<Node<T>>>) -> nat {
    match link {
        Some(node) => node.count(),
        None => 0,
    }
}

/// The values of an optional subtree.
pub open spec fn link_elems<T>(link: Option<Box<Node<T>>>) -> Set<T> {
    match link {
        Some(node) => node.elems(),
        None => Set::empty(),
    }
}

/// The height of an optional subtree (zero for none).
pub open spec fn link_height<T>(link: Option<Box<Node<T>>>) -> nat {
    match link {
        Some(node) => node.height(),
        None => 0,
    }
}

impl<T: Ord> Node<T> {
    /// The search-tree order: every value on the left comes before the
    /// node's value, every value on the right after it, at every node.
    pub open spec fn ordered(self) -> bool
        decreases self,
    {
        &&& forall|x: T| #[trigger] link_elems(self.left).contains(x) ==> lt(x, self.data)
        &&& forall|x: T| #[trigger] link_elems(self.right).contains(x) ==> lt(self.data, x)
        &&& match self.left {
            Some(node) => node.ordered(),
            None => true,
        }
        &&& match self.right {
            Some(node) => node.ordered(),
            None => true,
        }
    }
}

/// An optional subtree that is in search-tree order.
pub open spec fn link_ordered<T: Ord>(link: Option<Box<Node<T>>>) -> bool {
    match link {
        Some(node) => node.ordered(),
        None => true,
    }
}

/// A subtree in search order holds distinct values: as many as it has
/// nodes.
proof fn lemma_elems_len<T: OrderedKey>(link: Option<Box<Node<T>>>)
    requires
        link_ordered(link),
    ensures
        link_elems(link).finite(),
        link_elems(link).len() == link_count(link),
    decreases link,
{
    if let Some(node) = link {
        T::lemma_total_order();
        lemma_elems_len(node.left);
        lemma_elems_len(node.right);
        let l = link_elems(node.left);
        let r = link_elems(node.right);
        assert(l.disjoint(r)) by {
            assert forall|x: T| l.contains(x) implies !r.contains(x) by {
                if r.contains(x) {
                    lemma_leq_antisym(x, node.data);
                }
            }
        }
        lemma_set_disjoint_lens(l, r);
        assert(!(l + r).contains(node.data));
    }
}

/// A subtree is no higher than it has nodes.
proof fn lemma_height_within_count<T>(link: Option<Box<Node<T>>>)
    ensures
        link_height(link) <= link_count(link),
    decreases link,
{
    if let Some(node) = link {
        lemma_height_within_count(node.left);
        lemma_height_within_count(node.right);
    }
}

pub struct BinarySearchTree<T> {
    node_count: usize,
    root: Option<Box<Node<T>>>,
}

impl<T> View for BinarySearchTree<T> {
    type V = Set<T>;

    /// The values held.
    closed spec fn view(&self) -> Set<T> {
        link_elems(self.root)
    }
}

impl<T: OrderedKey> BinarySearchTree<T> {
    /// The tree is in search-tree order and the count is that of its values.
    pub closed spec fn wf(&self) -> bool {
        &&& link_ordered(self.root)
        &&& self@.finite()
        &&& self.node_count == self@.len()
    }

    /// The number of nodes on the longest path down from the root.
    pub closed spec fn tree_height(&self) -> nat {
        link_height(self.root)
    }

    /// The values in pre-order.
    pub closed spec fn preorder(&self) -> Seq<T> {
        link_preorder(self.root)
    }

    /// An empty tree.
    pub fn new() -> (r: Self)
        ensures
            r.wf(),
            r@ == Set::<T>::empty(),
    {
        Self { node_count: 0, root: None }
    }

    pub fn is_empty(&self) -> (r: bool)
        requires
            self.wf(),
        ensures
            r == (self@.len() == 0),
    {
        self.size() == 0
    }

    pub fn size(&self) -> (r: usize)
        requires
            self.wf(),
        ensures
            r == self@.len(),
    {
        self.node_count
    }

    /// Adds `elem` unless it is there already; whether it was added.
    pub fn add(&mut self, elem: T) -> (r: bool)
        requires
            old(self).wf(),
            old(self)@.len() < usize::MAX,
        ensures
            final(self).wf(),
            r == !old(self)@.contains(elem),
            final(self)@ == old(self)@.insert(elem),
            final(self)@.finite(),
            final(self)@.len() == old(self)@.len() + if r {
                1int
            } else {
                0int
            },
    {
        if self.contains(&elem) {
            proof {
                assert(self@.insert(elem) =~= self@);
            }
            false
        } else {
            let moved_root = self.root.take();
            self.root = Some(Self::add_node(moved_root, elem));
            self.node_count += 1;
            true
        }
    }

    /// The subtree `node` with a leaf for `elem` added where the order puts it.
    pub fn add_node(node: Option<Box<Node<T>>>, elem: T) -> (r: Box<Node<T>>)
        requires
            link_ordered(node),
            !link_elems(node).contains(elem),
        ensures
            r.ordered(),
            r.elems() == link_elems(node).insert(elem),
        decreases node,
    {
        proof {
            T::lemma_total_order();
            lemma_partial_cmp_obeyed::<T>();
        }
        match node {
            Some(data) => {
                let mut data = *data;
                proof {
                    lemma_lt_obeyed(elem, data.data);
                }
                if elem.lt(&data.data) {
                    let moved_left = data.left.take();
                    data.left = Some(Self::add_node(moved_left, elem));
                } else {
                    proof {
                        lemma_leq_total(elem, data.data);
                    }
                    let moved_right = data.right.take();
                    data.right = Some(Self::add_node(moved_right, elem));
                }
                proof {
                    assert(data.elems() =~= link_elems(node).insert(elem));
                }
                Box::new(data)
            }
            None => {
                let r = Node::<T>::new(None, None, elem);
                proof {
                    assert(r.elems() =~= set![elem]);
                }
                r
            }
        }
    }

    /// Whether `elem` is in the tree.
    pub fn contains(&self, elem: &T) -> (r: bool)
        requires
            self.wf(),
        ensures
            r == self@.contains(*elem),
    {
        match &self.root {
            Some(root) => Self::contains_node(elem, Some(&**root)),
            None => false,
        }
    }

    /// Whether `elem` is in the subtree `node`, found by one path down.
    pub fn contains_node(elem: &T, node: Option<&Node<T>>) -> (r: bool)
        requires
            node matches Some(n) ==> n.ordered(),
        ensures
            r == match node {
                Some(n) => n.elems().contains(*elem),
                None => false,
            },
        decreases node,
    {
        proof {
            T::lemma_total_order();
            lemma_partial_cmp_obeyed::<T>();
        }
        match node {
            None => false,
            Some(node) => {
                proof {
                    lemma_lt_obeyed(*elem, node.data);
                }
                if elem.lt(&node.data) {
                    proof {
                        if link_elems(node.right).contains(*elem) {
                            lemma_leq_antisym(*elem, node.data);
                        }
                    }
                    match &node.left {
                        Some(left) => Self::contains_node(elem, Some(&**left)),
                        None => false,
                    }
                } else if elem.gt(&node.data) {
                    proof {
                        if link_elems(node.left).contains(*elem) {
                            lemma_leq_antisym(*elem, node.data);
                        }
                    }
                    match &node.right {
                        Some(right) => Self::contains_node(elem, Some(&**right)),
                        None => false,
                    }
                } else {
                    proof {
                        lemma_leq_total(*elem, node.data);
                    }
                    true
                }
            }
        }
    }

    /// The node with the least value of the subtree `node`.
    pub fn find_min(node: Option<&Node<T>>) -> (r: Option<&Node<T>>)
        requires
            node matches Some(n) ==> n.ordered(),
        ensures
            r is None <==> node is None,
            r matches Some(m) ==> {
                let n = node.unwrap();
                &&& n.holds(*m)
                &&& m.left is None
                &&& n.elems().contains(m.data)
                &&& forall|x: T| #[trigger] n.elems().contains(x) ==> leq(m.data, x)
            },
        decreases node,
    {
        proof {
            T::lemma_total_order();
        }
        match node {
            None => None,
            Some(n) => match &n.left {
                Some(left) => {
                    let r = Self::find_min(Some(&**left));
                    proof {
                        let m = r.unwrap().data;
                        assert(link_elems(n.left) == left.elems());
                        assert(link_elems(n.left).contains(m));
                        assert(lt(m, n.data));
                        assert(n.elems().contains(m));
                        assert forall|x: T| #[trigger] n.elems().contains(x) implies leq(m, x) by {
                            if x == n.data {
                            } else if link_elems(n.right).contains(x) {
                                lemma_lt_trans(m, n.data, x);
                            }
                        }
                    }
                    r
                },
                None => {
                    proof {
                        lemma_leq_refl(n.data);
                        assert forall|x: T| #[trigger] n.elems().contains(x) implies leq(n.data, x) by {
                            if x != n.data {
                                assert(link_elems(n.right).contains(x));
                            }
                        }
                    }
                    Some(n)
                },
            },
        }
    }

    /// The node with the greatest value of the subtree `node`.
    pub fn find_max(node: Option<&Node<T>>) -> (r: Option<&Node<T>>)
        requires
            node matches Some(n) ==> n.ordered(),
        ensures
            r is None <==> node is None,
            r matches Some(m) ==> {
                let n = node.unwrap();
                &&& n.holds(*m)
                &&& m.right is None
                &&& n.elems().contains(m.data)
                &&& forall|x: T| #[trigger] n.elems().contains(x) ==> leq(x, m.data)
            },
        decreases node,
    {
        proof {
            T::lemma_total_order();
        }
        match node {
            None => None,
            Some(n) => match &n.right {
                Some(right) => {
                    let r = Self::find_max(Some(&**right));
                    proof {
                        let m = r.unwrap().data;
                        assert(link_elems(n.right) == right.elems());
                        assert(link_elems(n.right).contains(m));
                        assert(lt(n.data, m));
                        assert(n.elems().contains(m));
                        assert forall|x: T| #[trigger] n.elems().contains(x) implies leq(x, m) by {
                            if x == n.data {
                            } else if link_elems(n.left).contains(x) {
                                lemma_lt_trans(x, n.data, m);
                            }
                        }
                    }
                    r
                },
                None => {
                    proof {
                        lemma_leq_refl(n.data);
                        assert forall|x: T| #[trigger] n.elems().contains(x) implies leq(x, n.data) by {
                            if x != n.data {
                                assert(link_elems(n.left).contains(x));
                            }
                        }
                    }
                    Some(n)
                },
            },
        }
    }

    /// Removes `elem` if it is there; whether it was.
    pub fn remove(&mut self, elem: T) -> (r: bool)
        requires
            old(self).wf(),
        ensures
            final(self).wf(),
            r == old(self)@.contains(elem),
            final(self)@ == old(self)@.remove(elem),
            final(self)@.finite(),
            final(self)@.len() == old(self)@.len() - if r {
                1int
            } else {
                0int
            },
    {
        if self.contains(&elem) {
            self.root = Self::remove_node(&elem, &mut self.root);
            self.node_count -= 1;
            return true;
        }
        proof {
            assert(self@.remove(elem) =~= self@);
        }
        false
    }

    /// The subtree held in `option_node`, which it takes, without `elem`. A
    /// node with two children takes the least value of its right subtree,
    /// which is removed from there.
    pub fn remove_node(elem: &T, option_node: &mut Option<Box<Node<T>>>) -> (r: Option<Box<Node<T>>>)
        requires
            link_ordered(*old(option_node)),
        ensures
            link_ordered(r),
            link_elems(r) == link_elems(*old(option_node)).remove(*elem),
            *final(option_node) is None,
        decreases *old(option_node),
    {
        proof {
            T::lemma_total_order();
            lemma_partial_cmp_obeyed::<T>();
        }
        match option_node.take() {
            None => {
                proof {
                    assert(Set::<T>::empty().remove(*elem) =~= Set::<T>::empty());
                }
                None
            },
            Some(boxed_node) => {
                let mut node = *boxed_node;
                let ghost n0 = node;
                proof {
                    lemma_lt_obeyed(*elem, node.data);
                }
                if elem.lt(&node.data) {
                    node.left = Self::remove_node(elem, &mut node.left);
                    proof {
                        if link_elems(n0.right).contains(*elem) {
                            lemma_leq_antisym(*elem, n0.data);
                        }
                        assert(node.elems() =~= n0.elems().remove(*elem));
                    }
                    Some(Box::new(node))
                } else if elem.gt(&node.data) {
                    node.right = Self::remove_node(elem, &mut node.right);
                    proof {
                        if link_elems(n0.left).contains(*elem) {
                            lemma_leq_antisym(*elem, n0.data);
                        }
                        assert(node.elems() =~= n0.elems().remove(*elem));
                    }
                    Some(Box::new(node))
                } else {
                    proof {
                        lemma_leq_total(*elem, node.data);
                        assert(*elem == node.data);
                        if link_elems(n0.left).contains(node.data) {
                            lemma_leq_refl(node.data);
                        }
                        if link_elems(n0.right).contains(node.data) {
                            lemma_leq_refl(node.data);
                        }
                    }
                    if node.left.is_none() {
                        proof {
                            assert(link_elems(n0.right) =~= n0.elems().remove(*elem));
                        }
                        return node.right;
                    }
                    if node.right.is_none() {
                        proof {
                            assert(link_elems(n0.left) =~= n0.elems().remove(*elem));
                        }
                        return node.left;
                    }
                    let min_data = match &node.right {
                        Some(right) => Self::find_min(Some(&**right)).unwrap().data,
                        None => node.data,
                    };
                    node.data = min_data;
                    node.right = Self::remove_node(&min_data, &mut node.right);
                    proof {
                        assert forall|x: T| #[trigger] link_elems(node.left).contains(x) implies lt(x, node.data) by {
                            lemma_lt_trans(x, n0.data, min_data);
                        }
                        assert forall|x: T| #[trigger] link_elems(node.right).contains(x) implies lt(node.data, x) by {
                            assert(leq(min_data, x));
                        }
                        assert(node.elems() =~= n0.elems().remove(*elem));
                    }
                    Some(Box::new(node))
                }
            },
        }
    }

    /// The number of nodes on the longest path down from the root.
    pub fn height(&self) -> (r: usize)
        requires
            self.wf(),
        ensures
            r == self.tree_height(),
    {
        proof {
            lemma_elems_len(self.root);
        }
        match &self.root {
            Some(root) => Self::height_node(Some(&**root)),
            None => 0,
        }
    }

    /// The height of the subtree `node` (zero for none).
    pub fn height_node(node: Option<&Node<T>>) -> (r: usize)
        requires
            node matches Some(n) ==> n.count() <= usize::MAX,
        ensures
            r == match node {
                Some(n) => n.height(),
                None => 0,
            },
            node matches Some(n) ==> r <= n.count(),
        decreases node,
    {
        match node {
            None => 0,
            Some(node) => {
                proof {
                    lemma_height_within_count(Some(Box::new(*node)));
                }
                let right_height = match &node.right {
                    Some(right) => Self::height_node(Some(&**right)),
                    None => 0,
                };
                let left_height = match &node.left {
                    Some(left) => Self::height_node(Some(&**left)),
                    None => 0,
                };
                if left_height >= right_height {
                    left_height + 1
                } else {
                    right_height + 1
                }
            },
        }
    }
}

/// The pre-order values still to come from a stack of subtrees: the top
/// one (last) first, then the ones beneath it.
pub open spec fn stack_preorder<T>(stack: Seq<&Node<T>>) -> Seq<T>
    decreases stack.len(),
{
    if stack.len() == 0 {
        Seq::empty()
    } else {
        stack.last().preorder() + stack_preorder(stack.drop_last())
    }
}

/// The pre-order values of an optional subtree.
pub open spec fn link_preorder<T>(link: Option<Box<Node<T>>>) -> Seq<T> {
    match link {
        Some(node) => node.preorder(),
        None => Seq::empty(),
    }
}

proof fn lemma_concat_contains<A>(a: Seq<A>, b: Seq<A>, x: A)
    ensures
        (a + b).contains(x) <==> a.contains(x) || b.contains(x),
{
    if (a + b).contains(x) {
        let i = choose|i: int| 0 <= i < (a + b).len() && (a + b)[i] == x;
        if i < a.len() {
            assert(a[i] == x);
        } else {
            assert(b[i - a.len()] == x);
        }
    }
    if a.contains(x) {
        let i = choose|i: int| 0 <= i < a.len() && a[i] == x;
        assert((a + b)[i] == x);
    }
    if b.contains(x) {
        let i = choose|i: int| 0 <= i < b.len() && b[i] == x;
        assert((a + b)[i + a.len()] == x);
    }
}

/// The pre-order walk of a subtree meets exactly its values.
proof fn lemma_preorder_values<T>(link: Option<Box<Node<T>>>, x: T)
    ensures
        link_preorder(link).contains(x) <==> link_elems(link).contains(x),
    decreases link,
{
    if let Some(node) = link {
        lemma_preorder_values(node.left, x);
        lemma_preorder_values(node.right, x);
        let l = link_preorder(node.left);
        let r = link_preorder(node.right);
        lemma_concat_contains(seq![node.data], l, x);
        lemma_concat_contains(seq![node.data] + l, r, x);
        assert(seq![node.data].contains(x) <==> x == node.data) by {
            if x == node.data {
                assert(seq![node.data][0] == x);
            }
        }
    }
}

/// A walk over a tree in pre-order, with an explicit stack of the subtrees
/// still to visit.
pub struct PreOrderTreeTraversal<'a, T> {
    tree: &'a BinarySearchTree<T>,
    stack: Vec<&'a Node<T>>,
}

impl<'a, T: OrderedKey> PreOrderTreeTraversal<'a, T> {
    /// The values the walk has still to hand out.
    pub closed spec fn remaining(&self) -> Seq<T> {
        stack_preorder(self.stack@)
    }

    /// A walk that starts at the root of a non-empty `tree`.
    pub fn new(tree: &'a BinarySearchTree<T>) -> (r: Self)
        requires
            tree.wf(),
            tree@.len() > 0,
        ensures
            r.remaining() == tree.preorder(),
            forall|x: T| #[trigger] r.remaining().contains(x) <==> tree@.contains(x),
    {
        proof {
            assert forall|x: T| #[trigger] tree.preorder().contains(x) <==> tree@.contains(x) by {
                lemma_preorder_values(tree.root, x);
            }
        }
        let mut stack: Vec<&'a Node<T>> = Vec::new();
        match &tree.root {
            Some(root) => {
                stack.push(&**root);
                proof {
                    assert(stack@.len() == 1);
                    assert(stack@.drop_last() =~= Seq::<&Node<T>>::empty());
                    assert(stack_preorder(stack@.drop_last()) == Seq::<T>::empty());
                    assert(stack_preorder(stack@) =~= root.preorder());
                }
            },
            None => {},
        }
        Self { tree, stack }
    }

    /// The next value in pre-order, or `None` when the walk is over.
    pub fn next(&mut self) -> (r: Option<T>)
        ensures
            r is None <==> old(self).remaining().len() == 0,
            r is None ==> final(self).remaining() == old(self).remaining(),
            r matches Some(x) ==> x == old(self).remaining()[0] && final(self).remaining()
                == old(self).remaining().drop_first(),
    {
        let ghost before = self.stack@;
        match self.stack.pop() {
            None => {
                proof {
                    assert(before.len() == 0);
                }
                None
            },
            Some(node) => {
                let ghost rest = self.stack@;
                proof {
                    assert(rest == before.drop_last());
                    assert(stack_preorder(before) == node.preorder() + stack_preorder(rest));
                }
                match &node.right {
                    Some(right) => {
                        self.stack.push(&**right);
                        proof {
                            assert(self.stack@.drop_last() == rest);
                        }
                    },
                    None => {},
                }
                let ghost mid = self.stack@;
                match &node.left {
                    Some(left) => {
                        self.stack.push(&**left);
                        proof {
                            assert(self.stack@.drop_last() == mid);
                        }
                    },
                    None => {},
                }
                proof {
                    let l = link_preorder(node.left);
                    let rp = link_preorder(node.right);
                    assert(stack_preorder(mid) == rp + stack_preorder(rest));
                    assert(stack_preorder(self.stack@) == l + rp + stack_preorder(rest));
                    assert(node.preorder() == seq![node.data] + l + rp);
                    assert((seq![node.data] + l + rp + stack_preorder(rest)).drop_first() =~= l + rp
                        + stack_preorder(rest));
                    assert(stack_preorder(before) =~= seq![node.data] + l + rp + stack_preorder(rest));
                }
                Some(node.data)
            },
        }
    }
}

} // verus!
