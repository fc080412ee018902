//! Algorithms for selecting a particular element of an unsorted slice.
//!
//! The routines come in pairs: one that compares with the three-way
//! comparison of the element type, and one, named `.._by`, that asks an
//! ordering function. What an ordering function guarantees is stated over
//! every relation that the function implements: whenever it answers, it
//! answers `Less` exactly where the relation holds and `Greater` exactly
//! where the relation holds with the sides exchanged.

use crate::order::{le, lt, strict_weak_order, three_way_is_specified};
use crate::select::qselect::{selects, selects_by};
use crate::slices::{middle, nth, with_nth};
use core::cmp::Ordering;
use vstd::prelude::*;
use vstd::std_specs::cmp::OrdSpec;

pub mod qselect;

pub use self::qselect::{qselect, qselect_by, qselect_inplace, qselect_inplace_by};

verus! {

/// `ord_fn` can be asked about any two values.
pub open spec fn accepts_all<T, F: Fn(&T, &T) -> Ordering>(ord_fn: F) -> bool {
    forall|a: T, b: T| #[trigger] call_requires(ord_fn, (&a, &b))
}

/// `ord_fn` implements `below`: whatever it answers, it answers `Less`
/// exactly where `below` holds, and `Greater` exactly where `below` holds
/// with the sides exchanged.
pub open spec fn implements<T, F: Fn(&T, &T) -> Ordering>(
    ord_fn: F,
    below: spec_fn(T, T) -> bool,
) -> bool {
    forall|a: T, b: T, o: Ordering| #[trigger]
        call_ensures(ord_fn, (&a, &b), o) ==> (o == Ordering::Less <==> below(a, b)) && (o
            == Ordering::Greater <==> below(b, a))
}

/// `below` is a strict weak order: it is asymmetric, and what it relates to
/// neither of two values that it relates lies not between them.
pub open spec fn is_strict_weak<T>(below: spec_fn(T, T) -> bool) -> bool {
    &&& forall|a: T, b: T| #[trigger] below(a, b) ==> !below(b, a)
    &&& forall|a: T, b: T, c: T|
        #[trigger] below(a, c) ==> #[trigger] below(a, b) || #[trigger] below(b, c)
}

/// `ord_fn` implements the strict weak order `below`.
pub open spec fn orders_by<T, F: Fn(&T, &T) -> Ordering>(
    ord_fn: F,
    below: spec_fn(T, T) -> bool,
) -> bool {
    implements(ord_fn, below) && is_strict_weak(below)
}

/// `<` as a relation.
pub open spec fn natural_order<T: PartialOrd>() -> spec_fn(T, T) -> bool {
    |a: T, b: T| lt(a, b)
}

/// Get the median of `data` (the element that would be at `data.len() / 2`
/// if the slice was sorted).
///
/// Allocates scratch space so it doesn't have to modify `data`.
pub fn median<T: Ord>(data: &[T]) -> (r: &T)
    requires
        data@.len() > 0,
    ensures
        exists|arranged: Seq<T>|
            #![trigger selects(data@, arranged, middle(data@))]
            selects(data@, arranged, middle(data@)) && *r == nth(arranged, middle(data@)),
{
    let median_idx = data.len() / 2;
    assert(median_idx == middle(data@));
    qselect(data, median_idx)
}

/// Given an ordering function, get the median of `data` (the element that
/// would be at `data.len() / 2` if the slice was sorted).
///
/// Allocates scratch space so it doesn't have to modify `data`.
pub fn median_by<T, F: Fn(&T, &T) -> Ordering>(data: &[T], ord_fn: F) -> (r: &T)
    requires
        data@.len() > 0,
        accepts_all::<T, F>(ord_fn),
    ensures
        exists|arranged: Seq<T>|
            #![trigger selects_by(ord_fn, data@, arranged, middle(data@))]
            selects_by(ord_fn, data@, arranged, middle(data@)) && *r == nth(
                arranged,
                middle(data@),
            ),
{
    let median_idx = data.len() / 2;
    assert(median_idx == middle(data@));
    qselect_by(data, median_idx, ord_fn)
}

/// Get the median of `data` (the element that would be at `data.len() / 2`
/// if the slice was sorted).
///
/// This performs the selection operation in-place (`data` will be partially
/// [or fully] sorted in the process).
pub fn median_inplace<T: Ord>(data: &mut [T]) -> (r: &mut T)
    requires
        old(data)@.len() > 0,
    ensures
        exists|arranged: Seq<T>|
            #![trigger selects(old(data)@, arranged, middle(old(data)@))]
            selects(old(data)@, arranged, middle(old(data)@)) && *r == nth(
                arranged,
                middle(old(data)@),
            ) && final(data)@ == with_nth(arranged, middle(old(data)@), *final(r)),
{
    let median_idx = data.len() / 2;
    assert(median_idx == middle(data@));
    qselect_inplace(data, median_idx)
}

/// Given an ordering function, get the median of `data` (the element that
/// would be at `data.len() / 2` if the slice was sorted).
///
/// This performs the selection operation in-place (`data` will be partially
/// [or fully] sorted in the process).
pub fn median_inplace_by<T, F: Fn(&T, &T) -> Ordering>(data: &mut [T], ord_fn: F) -> (r: &mut T)
    requires
        old(data)@.len() > 0,
        accepts_all::<T, F>(ord_fn),
    ensures
        exists|arranged: Seq<T>|
            #![trigger selects_by(ord_fn, old(data)@, arranged, middle(old(data)@))]
            selects_by(ord_fn, old(data)@, arranged, middle(old(data)@)) && *r == nth(
                arranged,
                middle(old(data)@),
            ) && final(data)@ == with_nth(arranged, middle(old(data)@), *final(r)),
{
    let median_idx = data.len() / 2;
    assert(median_idx == middle(data@));
    qselect_inplace_by(data, median_idx, ord_fn)
}

/// Given an ordering function, if `x > y`, swap `x` and `y`.
pub fn in_order_by<T, F: Fn(&T, &T) -> Ordering>(x: &mut T, y: &mut T, ord_fn: F)
    requires
        call_requires(ord_fn, (&*old(x), &*old(y))),
    ensures
        (*final(x), *final(y)) == (*old(x), *old(y)) || (*final(x), *final(y)) == (
            *old(y),
            *old(x),
        ),
        forall|below: spec_fn(T, T) -> bool| #[trigger]
            implements(ord_fn, below) ==> (*final(x), *final(y)) == if below(*old(y), *old(x)) {
                (*old(y), *old(x))
            } else {
                (*old(x), *old(y))
            },
{
    arrange(x, y, &ord_fn);
}

/// Exchanges `x` and `y` if `ord_fn` answers that `x` is greater.
fn arrange<T, F: Fn(&T, &T) -> Ordering>(x: &mut T, y: &mut T, ord_fn: &F)
    requires
        call_requires(*ord_fn, (&*old(x), &*old(y))),
    ensures
        (*final(x), *final(y)) == (*old(x), *old(y)) || (*final(x), *final(y)) == (
            *old(y),
            *old(x),
        ),
        forall|below: spec_fn(T, T) -> bool| #[trigger]
            implements(*ord_fn, below) ==> (*final(x), *final(y)) == if below(*old(y), *old(x)) {
                (*old(y), *old(x))
            } else {
                (*old(x), *old(y))
            },
{
    let answer = ord_fn(x, y);
    assert(call_ensures(*ord_fn, (&*old(x), &*old(y)), answer));
    match answer {
        Ordering::Greater => {
            core::mem::swap(x, y);
        },
        _ => {},
    }
}

/// If `x > y`, swap `x` and `y`.
pub fn in_order<T: Ord>(x: &mut T, y: &mut T)
    ensures
        (*final(x), *final(y)) == (*old(x), *old(y)) || (*final(x), *final(y)) == (
            *old(y),
            *old(x),
        ),
        three_way_is_specified::<T>() ==> (*final(x), *final(y)) == if lt(*old(y), *old(x)) {
            (*old(y), *old(x))
        } else {
            (*old(x), *old(y))
        },
{
    let by_cmp = |a: &T, b: &T| -> (o: Ordering)
        ensures
            T::obeys_cmp_spec() ==> o == a.cmp_spec(b),
        { a.cmp(b) };
    proof {
        if three_way_is_specified::<T>() {
            lemma_three_way_implements::<T, _>(by_cmp);
        }
    }
    in_order_by(x, y, by_cmp);
}

/// A function that answers as the three-way comparison of `T` does
/// implements `<`.
pub proof fn lemma_three_way_implements<T: Ord, F: Fn(&T, &T) -> Ordering>(ord_fn: F)
    requires
        three_way_is_specified::<T>(),
        forall|a: T, b: T, o: Ordering| #[trigger]
            call_ensures(ord_fn, (&a, &b), o) ==> o == a.cmp_spec(&b),
    ensures
        implements(ord_fn, natural_order::<T>()),
        strict_weak_order::<T>() ==> orders_by(ord_fn, natural_order::<T>()),
{
    let below = natural_order::<T>();
    assert forall|a: T, b: T, o: Ordering| #[trigger]
        call_ensures(ord_fn, (&a, &b), o) implies (o == Ordering::Less <==> below(a, b)) && (o
        == Ordering::Greater <==> below(b, a)) by {
        assert(o == a.cmp_spec(&b));
        assert(lt(a, b) <==> a.cmp_spec(&b) == Ordering::Less);
        assert(lt(b, a) <==> a.cmp_spec(&b) == Ordering::Greater);
    }
    if strict_weak_order::<T>() {
        assert forall|a: T, b: T| #[trigger] below(a, b) implies !below(b, a) by {
            assert(lt(a, b));
        }
        assert forall|a: T, b: T, c: T| #[trigger] below(a, c) implies #[trigger] below(a, b)
            || #[trigger] below(b, c) by {
            assert(lt(a, c));
            assert(lt(a, b) || lt(b, c));
        }
    }
}

/// `(a, b, c)` are `(x, y, z)` in some order.
pub open spec fn rearranged<T>(x: T, y: T, z: T, a: T, b: T, c: T) -> bool {
    ||| (a, b, c) == (x, y, z)
    ||| (a, b, c) == (x, z, y)
    ||| (a, b, c) == (y, x, z)
    ||| (a, b, c) == (y, z, x)
    ||| (a, b, c) == (z, x, y)
    ||| (a, b, c) == (z, y, x)
}

/// `m` is the median of `x`, `y` and `z` under `below`: it is one of the
/// three, it is not below one of the others, and the third is not below it.
pub open spec fn is_median_under<T>(below: spec_fn(T, T) -> bool, x: T, y: T, z: T, m: T) -> bool {
    exists|a: T, c: T|
        #![trigger rearranged(x, y, z, a, m, c)]
        rearranged(x, y, z, a, m, c) && !below(m, a) && !below(c, m)
}

/// `m` is the median of `x`, `y` and `z`: it is one of the three, one of
/// the others is not above it and the third is not below it.
pub open spec fn is_median<T: PartialOrd>(x: T, y: T, z: T, m: T) -> bool {
    exists|a: T, c: T|
        #![trigger rearranged(x, y, z, a, m, c)]
        rearranged(x, y, z, a, m, c) && le(a, m) && le(m, c)
}

/// Given an ordering function, of the three values passed, return the median.
pub fn median_of_3_by<T, F: Fn(&T, &T) -> Ordering>(x: T, y: T, z: T, ord_fn: F) -> (m: T)
    requires
        accepts_all::<T, F>(ord_fn),
    ensures
        m == x || m == y || m == z,
        forall|below: spec_fn(T, T) -> bool| #[trigger]
            orders_by(ord_fn, below) ==> is_median_under(below, x, y, z, m),
{
    let mut x = x;
    let mut y = y;
    let mut z = z;
    let ghost x0 = x;
    let ghost y0 = y;
    let ghost z0 = z;
    assert(call_requires(ord_fn, (&x, &y)));
    arrange(&mut x, &mut y, &ord_fn);
    let ghost x1 = x;
    let ghost y1 = y;
    assert(call_requires(ord_fn, (&x, &z)));
    arrange(&mut x, &mut z, &ord_fn);
    let ghost x2 = x;
    let ghost z2 = z;
    assert(call_requires(ord_fn, (&y, &z)));
    arrange(&mut y, &mut z, &ord_fn);
    proof {
        assert forall|below: spec_fn(T, T) -> bool| #[trigger]
            orders_by(ord_fn, below) implies is_median_under(below, x0, y0, z0, y) by {
            assert(implements(ord_fn, below));
            // after the first two steps nothing is below `x`
            assert(!below(y1, x1));
            assert(!below(z2, x2));
            assert(!below(y1, x2)) by {
                if x2 != x1 {
                    assert(below(x2, x1));
                    if below(y1, x2) {
                        assert(below(y1, x1) || below(x1, x2));
                    }
                }
            }
            assert(!below(z, y));
            assert(!below(y, x2)) by {
                if y != y1 {
                    assert(y == z2);
                }
            }
            assert(rearranged(x0, y0, z0, x2, y, z));
        }
    }
    y
}

/// Of the three values passed, return the median.
pub fn median_of_3<T: Ord>(x: T, y: T, z: T) -> (m: T)
    ensures
        m == x || m == y || m == z,
        three_way_is_specified::<T>() && strict_weak_order::<T>() ==> is_median(x, y, z, m),
{
    let by_cmp = |a: &T, b: &T| -> (o: Ordering)
        ensures
            T::obeys_cmp_spec() ==> o == a.cmp_spec(b),
        { a.cmp(b) };
    proof {
        if three_way_is_specified::<T>() {
            lemma_three_way_implements::<T, _>(by_cmp);
        }
    }
    let m = median_of_3_by(x, y, z, by_cmp);
    proof {
        if three_way_is_specified::<T>() && strict_weak_order::<T>() {
            let below = natural_order::<T>();
            assert(orders_by(by_cmp, below));
            let (a, c) = choose|a: T, c: T|
                #![trigger rearranged(x, y, z, a, m, c)]
                rearranged(x, y, z, a, m, c) && !below(m, a) && !below(c, m);
            assert(rearranged(x, y, z, a, m, c) && le(a, m) && le(m, c));
        }
    }
    m
}

} // verus!
