//! The ordering vocabulary shared by the contracts of this crate.
//!
//! The contracts are phrased over the strict relation [`lt`], which is what
//! `<` computes where the comparison of a type is specified. A routine keeps
//! the values that it is given whatever the comparison does; what it
//! promises of their order is conditional on [`strict_weak_order`].

use core::cmp::Ordering;
use vstd::multiset::Multiset;
use vstd::prelude::*;
use vstd::std_specs::cmp::{OrdSpec, PartialEqSpec, PartialOrdSpec};

verus! {

/// How `a` compares with `b`, if the two are comparable.
pub open spec fn partial_order_of<T: PartialOrd>(a: T, b: T) -> Option<Ordering> {
    a.partial_cmp_spec(&b)
}

/// `a` compares strictly below `b`.
pub open spec fn lt<T: PartialOrd>(a: T, b: T) -> bool {
    a.partial_cmp_spec(&b) == Some(Ordering::Less)
}

/// `a` is not above `b`: the non-strict companion of [`lt`].
pub open spec fn le<T: PartialOrd>(a: T, b: T) -> bool {
    !lt(b, a)
}

/// The executable comparisons of `T` compute [`lt`]: `<` does, and `>` is
/// `<` with the sides exchanged.
pub open spec fn comparison_is_specified<T: PartialOrd>() -> bool {
    &&& T::obeys_partial_cmp_spec()
    &&& forall|a: T, b: T|
        (#[trigger] a.partial_cmp_spec(&b) == Some(Ordering::Greater)) <==> lt(b, a)
}

/// `<` on `T` is a strict weak order: it is specified, asymmetric, and
/// incomparability is transitive. Every total order is one.
pub open spec fn strict_weak_order<T: PartialOrd>() -> bool {
    &&& comparison_is_specified::<T>()
    &&& forall|a: T, b: T| #[trigger] lt(a, b) ==> !lt(b, a)
    &&& forall|a: T, b: T, c: T| #[trigger] lt(a, c) ==> #[trigger] lt(a, b) || #[trigger] lt(b, c)
}

/// Any two values of `T` are comparable, and they compare as equal exactly
/// if neither is strictly below the other; `>=` is then `<` negated.
pub open spec fn comparison_is_total<T: PartialOrd>() -> bool {
    &&& comparison_is_specified::<T>()
    &&& forall|a: T, b: T| (#[trigger] a.partial_cmp_spec(&b)) is Some
    &&& forall|a: T, b: T|
        (#[trigger] a.partial_cmp_spec(&b) == Some(Ordering::Equal)) <==> !lt(a, b) && !lt(b, a)
}

/// The three-way comparison of `T` is specified and agrees with `<`: it
/// answers as `<` and `>` do.
pub open spec fn three_way_is_specified<T: Ord>() -> bool {
    &&& comparison_is_specified::<T>()
    &&& T::obeys_cmp_spec()
    &&& forall|a: T, b: T| #[trigger] a.partial_cmp_spec(&b) == Some(a.cmp_spec(&b))
}

/// The executable `==` of `T` tells whether two values are the same.
pub open spec fn equality_is_specified<T: PartialEq>() -> bool {
    &&& T::obeys_eq_spec()
    &&& forall|a: T, b: T| #[trigger] a.eq_spec(&b) <==> a == b
}

/// `m` is a least element of `s`: it occurs in `s` and nothing in `s` is
/// strictly below it.
pub open spec fn is_minimum<T: PartialOrd>(m: T, s: Multiset<T>) -> bool {
    &&& s.contains(m)
    &&& forall|v: T| s.contains(v) ==> le(m, v)
}

/// `s` is in non-decreasing order from position `lo` up to, but excluding,
/// position `hi`.
pub open spec fn sorted_between<T: PartialOrd>(s: Seq<T>, lo: int, hi: int) -> bool {
    forall|i: int, j: int| lo <= i < j < hi ==> le(#[trigger] s[i], #[trigger] s[j])
}

/// `s` is in non-decreasing order.
pub open spec fn sorted<T: PartialOrd>(s: Seq<T>) -> bool {
    sorted_between(s, 0, s.len() as int)
}

/// `s` is in strictly increasing order.
pub open spec fn strictly_sorted<T: PartialOrd>(s: Seq<T>) -> bool {
    forall|i: int, j: int| 0 <= i < j < s.len() ==> lt(#[trigger] s[i], #[trigger] s[j])
}

/// Compares two values with the `<` of `T`.
pub fn less<T: PartialOrd>(a: &T, b: &T) -> (r: bool)
    ensures
        comparison_is_specified::<T>() ==> r == lt(*a, *b),
{
    *a < *b
}

/// Compares two values with the `==` of `T`.
pub fn same<T: PartialEq>(a: &T, b: &T) -> (r: bool)
    ensures
        equality_is_specified::<T>() ==> r == (*a == *b),
{
    *a == *b
}

/// Compares two values with the `>` of `T`.
pub fn greater<T: PartialOrd>(a: &T, b: &T) -> (r: bool)
    ensures
        comparison_is_specified::<T>() ==> r == lt(*b, *a),
{
    *a > *b
}

/// Compares two values with the `>=` of `T`.
pub fn at_least<T: PartialOrd>(a: &T, b: &T) -> (r: bool)
    ensures
        comparison_is_total::<T>() ==> r == le(*b, *a),
{
    *a >= *b
}

/// `le` is reflexive under a strict weak order.
pub proof fn lemma_le_reflexive<T: PartialOrd>(a: T)
    requires
        strict_weak_order::<T>(),
    ensures
        le(a, a),
{
    if lt(a, a) {
        assert(!lt(a, a));
    }
}

/// `le` is transitive under a strict weak order.
pub proof fn lemma_le_transitive<T: PartialOrd>(a: T, b: T, c: T)
    requires
        strict_weak_order::<T>(),
        le(a, b),
        le(b, c),
    ensures
        le(a, c),
{
    if lt(c, a) {
        assert(lt(c, b) || lt(b, a));
    }
}

/// A strictly smaller value followed by a not-larger one stays strictly smaller.
pub proof fn lemma_lt_le_transitive<T: PartialOrd>(a: T, b: T, c: T)
    requires
        strict_weak_order::<T>(),
        lt(a, b),
        le(b, c),
    ensures
        lt(a, c),
{
    assert(lt(a, c) || lt(c, b));
}

/// `==` on the machine integers tells whether two values are the same.
pub proof fn lemma_integers_equal()
    ensures
        equality_is_specified::<u8>(),
        equality_is_specified::<u16>(),
        equality_is_specified::<u32>(),
        equality_is_specified::<u64>(),
        equality_is_specified::<usize>(),
        equality_is_specified::<i8>(),
        equality_is_specified::<i16>(),
        equality_is_specified::<i32>(),
        equality_is_specified::<i64>(),
        equality_is_specified::<isize>(),
{
}

/// The machine integers are strictly weakly ordered by `<`, and any two of
/// them are comparable.
pub proof fn lemma_integers_ordered()
    ensures
        comparison_is_total::<u8>(),
        comparison_is_total::<u16>(),
        comparison_is_total::<u32>(),
        comparison_is_total::<u64>(),
        comparison_is_total::<usize>(),
        comparison_is_total::<i8>(),
        comparison_is_total::<i16>(),
        comparison_is_total::<i32>(),
        comparison_is_total::<i64>(),
        comparison_is_total::<isize>(),
        strict_weak_order::<u8>(),
        strict_weak_order::<u16>(),
        strict_weak_order::<u32>(),
        strict_weak_order::<u64>(),
        strict_weak_order::<usize>(),
        strict_weak_order::<i8>(),
        strict_weak_order::<i16>(),
        strict_weak_order::<i32>(),
        strict_weak_order::<i64>(),
        strict_weak_order::<isize>(),
{
}

} // verus!
