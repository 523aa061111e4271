//! The total order that the priority queue and the search tree are built on:
//! the one a type's `Ord` implementation gives, where it agrees with `==`.
use core::cmp::Ordering;
use vstd::laws_cmp::{obeys_cmp, obeys_cmp_ord, obeys_cmp_partial_ord, obeys_partial_cmp_spec_properties};
use vstd::laws_eq::{obeys_concrete_eq, obeys_eq_spec_properties};
use vstd::prelude::*;
use vstd::std_specs::cmp::{OrdSpec, PartialEqSpec, PartialOrdSpec};

verus! {

/// The element type's comparisons form a total order whose equality is `==`.
pub open spec fn total_order<T: Ord>() -> bool {
    &&& obeys_cmp::<T>()
    &&& obeys_concrete_eq::<T>()
}

/// `a` is at most `b` in the element type's order.
pub open spec fn leq<T: Ord>(a: T, b: T) -> bool {
    a.partial_cmp_spec(&b) matches Some(Ordering::Less | Ordering::Equal)
}

/// `a` comes strictly before `b` in the element type's order.
pub open spec fn lt<T: Ord>(a: T, b: T) -> bool {
    leq(a, b) && a != b
}

/// Under a total order, `PartialOrd::lt` and `PartialOrd::gt` decide `lt`.
pub proof fn lemma_lt_obeyed<T: Ord>(a: T, b: T)
    requires
        total_order::<T>(),
    ensures
        a.partial_cmp_spec(&b) == Some(Ordering::Less) <==> lt(a, b),
        a.partial_cmp_spec(&b) == Some(Ordering::Greater) <==> lt(b, a),
{
    reveal(obeys_concrete_eq);
    reveal(obeys_partial_cmp_spec_properties);
    reveal(obeys_cmp_ord);
    assert(a.partial_cmp_spec(&b) == Some(a.cmp_spec(&b)));
    assert(b.partial_cmp_spec(&a) == Some(b.cmp_spec(&a)));
    if a == b {
        assert(a.eq_spec(&b));
        assert(b.eq_spec(&a));
    }
}

pub proof fn lemma_lt_trans<T: Ord>(a: T, b: T, c: T)
    requires
        total_order::<T>(),
        leq(a, b),
        leq(b, c),
        lt(a, b) || lt(b, c),
    ensures
        lt(a, c),
{
    lemma_leq_trans(a, b, c);
    if a == c {
        lemma_leq_antisym(a, b);
    }
}

/// Under a total order, `PartialOrd::le` decides `leq`.
pub proof fn lemma_partial_cmp_obeyed<T: Ord>()
    requires
        total_order::<T>(),
    ensures
        T::obeys_partial_cmp_spec(),
{
    reveal(obeys_cmp_partial_ord);
}

/// Under a total order, `PartialEq::eq` decides `==`.
pub proof fn lemma_eq_obeyed<T: Ord>()
    requires
        total_order::<T>(),
    ensures
        T::obeys_eq_spec(),
        forall|x: T, y: T| x.eq_spec(&y) <==> x == y,
{
    reveal(obeys_concrete_eq);
}

pub proof fn lemma_leq_refl<T: Ord>(a: T)
    requires
        total_order::<T>(),
    ensures
        leq(a, a),
{
    reveal(obeys_concrete_eq);
    reveal(obeys_partial_cmp_spec_properties);
    assert(a.eq_spec(&a));
}

pub proof fn lemma_leq_total<T: Ord>(a: T, b: T)
    requires
        total_order::<T>(),
    ensures
        leq(a, b) || leq(b, a),
{
    reveal(obeys_cmp_ord);
    reveal(obeys_partial_cmp_spec_properties);
    assert(a.partial_cmp_spec(&b) == Some(a.cmp_spec(&b)));
    if a.partial_cmp_spec(&b) == Some(Ordering::Greater) {
        assert(b.partial_cmp_spec(&a) == Some(Ordering::Less));
    }
}

pub proof fn lemma_leq_antisym<T: Ord>(a: T, b: T)
    requires
        total_order::<T>(),
        leq(a, b),
        leq(b, a),
    ensures
        a == b,
{
    reveal(obeys_concrete_eq);
    reveal(obeys_partial_cmp_spec_properties);
    if a.partial_cmp_spec(&b) == Some(Ordering::Less) {
        assert(b.partial_cmp_spec(&a) == Some(Ordering::Greater));
    }
    assert(a.eq_spec(&b));
}

pub proof fn lemma_leq_trans<T: Ord>(a: T, b: T, c: T)
    requires
        total_order::<T>(),
        leq(a, b),
        leq(b, c),
    ensures
        leq(a, c),
{
    reveal(obeys_concrete_eq);
    reveal(obeys_partial_cmp_spec_properties);
    if a.partial_cmp_spec(&b) == Some(Ordering::Equal) {
        assert(a.eq_spec(&b));
        assert(a == b);
    } else if b.partial_cmp_spec(&c) == Some(Ordering::Equal) {
        assert(b.eq_spec(&c));
        assert(b == c);
    } else {
        assert(a.partial_cmp_spec(&c) == Some(Ordering::Less));
    }
}

/// Not `leq(a, b)` means that `b` comes strictly before `a`.
pub proof fn lemma_not_leq<T: Ord>(a: T, b: T)
    requires
        total_order::<T>(),
        !leq(a, b),
    ensures
        leq(b, a),
        a != b,
{
    lemma_leq_total(a, b);
    if a == b {
        lemma_leq_refl(a);
    }
}

/// An element type of the priority queue: copyable, with a total order that
/// agrees with `==`.
pub trait OrderedKey: Copy + Ord {
    proof fn lemma_total_order()
        ensures
            total_order::<Self>(),
    ;
}

impl OrderedKey for u8 {
    proof fn lemma_total_order() {
        broadcast use vstd::laws_cmp::group_laws_cmp, vstd::laws_eq::group_laws_eq;
    }
}

impl OrderedKey for u16 {
    proof fn lemma_total_order() {
        broadcast use vstd::laws_cmp::group_laws_cmp, vstd::laws_eq::group_laws_eq;
    }
}

impl OrderedKey for u32 {
    proof fn lemma_total_order() {
        broadcast use vstd::laws_cmp::group_laws_cmp, vstd::laws_eq::group_laws_eq;
    }
}

impl OrderedKey for u64 {
    proof fn lemma_total_order() {
        broadcast use vstd::laws_cmp::group_laws_cmp, vstd::laws_eq::group_laws_eq;
    }
}

impl OrderedKey for usize {
    proof fn lemma_total_order() {
        broadcast use vstd::laws_cmp::group_laws_cmp, vstd::laws_eq::group_laws_eq;
    }
}

impl OrderedKey for i8 {
    proof fn lemma_total_order() {
        broadcast use vstd::laws_cmp::group_laws_cmp, vstd::laws_eq::group_laws_eq;
    }
}

impl OrderedKey for i16 {
    proof fn lemma_total_order() {
        broadcast use vstd::laws_cmp::group_laws_cmp, vstd::laws_eq::group_laws_eq;
    }
}

impl OrderedKey for i32 {
    proof fn lemma_total_order() {
        broadcast use vstd::laws_cmp::group_laws_cmp, vstd::laws_eq::group_laws_eq;
    }
}

impl OrderedKey for i64 {
    proof fn lemma_total_order() {
        broadcast use vstd::laws_cmp::group_laws_cmp, vstd::laws_eq::group_laws_eq;
    }
}

impl OrderedKey for isize {
    proof fn lemma_total_order() {
        broadcast use vstd::laws_cmp::group_laws_cmp, vstd::laws_eq::group_laws_eq;
    }
}

} // verus!
