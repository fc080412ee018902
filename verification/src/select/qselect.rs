//! Quickselect.

use crate::order::{le, strict_weak_order, three_way_is_specified};
use crate::select::{
    accepts_all, implements, is_median_under, is_strict_weak, lemma_three_way_implements,
    median_of_3_by, natural_order, orders_by, rearranged,
};
use crate::slices::{
    lemma_same_elements_holds, lemma_swapped_same_elements, middle, nth, position, swap,
    with_nth,
};
use core::cmp::Ordering;
use vstd::prelude::*;
use vstd::std_specs::cmp::OrdSpec;

verus! {

/// The threshold below which `qselect_inplace_by()` should just sort the
/// slice.
pub const SORT_THRESH: usize = 6;

/// No element of `s` is below one that comes before it.
pub open spec fn sorted_under<T>(below: spec_fn(T, T) -> bool, s: Seq<T>) -> bool {
    forall|i: int, j: int| 0 <= i < j < s.len() ==> !below(#[trigger] s[j], #[trigger] s[i])
}

/// The element of `s` at position `k` is where it would be if `s` were
/// sorted: it is below none of the elements before it, and none of the
/// elements behind it is below it.
pub open spec fn selected_under<T>(below: spec_fn(T, T) -> bool, s: Seq<T>, k: usize) -> bool {
    &&& forall|i: int| 0 <= i < k <= s.len() ==> !below(nth(s, k), #[trigger] s[i])
    &&& forall|i: int| k < i < s.len() ==> !below(#[trigger] s[i], nth(s, k))
}

/// The element of `s` at position `p` splits `s`: every element before it
/// is below it, and no element behind it is.
pub open spec fn split_under<T>(below: spec_fn(T, T) -> bool, s: Seq<T>, p: usize) -> bool {
    &&& forall|i: int| 0 <= i < p <= s.len() ==> below(#[trigger] s[i], nth(s, p))
    &&& forall|i: int| p < i < s.len() ==> !below(#[trigger] s[i], nth(s, p))
}

/// A strict weak order is transitive.
pub proof fn lemma_transitive<T>(below: spec_fn(T, T) -> bool, a: T, b: T, c: T)
    requires
        is_strict_weak(below),
        below(a, b),
        below(b, c),
    ensures
        below(a, c),
{
    assert(below(a, c) || below(c, b));
}

/// What is not below a value is not below anything that is not above that
/// value either.
pub proof fn lemma_not_below<T>(below: spec_fn(T, T) -> bool, a: T, b: T, c: T)
    requires
        is_strict_weak(below),
        !below(b, a),
        !below(c, b),
    ensures
        !below(c, a),
{
    if below(c, a) {
        assert(below(c, b) || below(b, a));
    }
}

/// Sorts a short slice by insertion.
fn sort_small<T, F: Fn(&T, &T) -> Ordering>(data: &mut [T], ord_fn: &F)
    requires
        accepts_all::<T, F>(*ord_fn),
    ensures
        final(data)@.to_multiset() == old(data)@.to_multiset(),
        final(data)@.len() == old(data)@.len(),
        forall|below: spec_fn(T, T) -> bool| #[trigger]
            orders_by(*ord_fn, below) ==> sorted_under(below, final(data)@),
{
    let n = data.len();
    let mut i: usize = 1;
    while i < n
        invariant
            1 <= i,
            i <= n || i == 1,
            data@.len() == n,
            accepts_all::<T, F>(*ord_fn),
            data@.to_multiset() == old(data)@.to_multiset(),
            forall|below: spec_fn(T, T) -> bool| #[trigger]
                orders_by(*ord_fn, below) ==> forall|a: int, b: int|
                    0 <= a < b < i && b < n ==> !below(#[trigger] data@[b], #[trigger] data@[a]),
        decreases n - i,
    {
        let mut j: usize = i;
        let mut settled = false;
        while j > 0 && !settled
            invariant
                j <= i < n,
                data@.len() == n,
                accepts_all::<T, F>(*ord_fn),
                data@.to_multiset() == old(data)@.to_multiset(),
                forall|below: spec_fn(T, T) -> bool| #[trigger]
                    orders_by(*ord_fn, below) ==> forall|a: int, b: int|
                        0 <= a < b <= i && b != j ==> !below(
                            #[trigger] data@[b],
                            #[trigger] data@[a],
                        ),
                settled ==> j > 0 && forall|below: spec_fn(T, T) -> bool| #[trigger]
                    orders_by(*ord_fn, below) ==> !below(nth(data@, j), data@[j - 1]),
            decreases
                    2 * j + if settled {
                        0int
                    } else {
                        1int
                    },
        {
            assert(call_requires(*ord_fn, (&data@[j - 1], &nth(data@, j))));
            let answer = ord_fn(&data[j - 1], &data[j]);
            assert(call_ensures(*ord_fn, (&data@[j - 1], &nth(data@, j)), answer));
            match answer {
                Ordering::Greater => {
                    let ghost before = data@;
                    proof {
                        lemma_swapped_same_elements(before, j - 1, position(j));
                    }
                    swap(data, j - 1, j);
                    j = j - 1;
                    proof {
                        assert forall|below: spec_fn(T, T) -> bool| #[trigger]
                            orders_by(*ord_fn, below) implies forall|a: int, b: int|
                            0 <= a < b <= i && b != j ==> !below(
                                #[trigger] data@[b],
                                #[trigger] data@[a],
                            ) by {
                            assert(implements(*ord_fn, below));
                            assert(below(before[j + 1], before[position(j)]));
                            assert forall|a: int, b: int| 0 <= a < b <= i && b != j implies !below(
                                #[trigger] data@[b],
                                #[trigger] data@[a],
                            ) by {
                                if b == j + 1 {
                                    if a != j {
                                        assert(!below(before[position(j)], before[a]));
                                    }
                                } else if a == j {
                                    assert(!below(before[b], before[position(j)]));
                                    lemma_not_below(
                                        below,
                                        before[j + 1],
                                        before[position(j)],
                                        before[b],
                                    );
                                } else if a == j + 1 {
                                    assert(!below(before[b], before[position(j)]));
                                } else {
                                    assert(!below(before[b], before[a]));
                                }
                            }
                        }
                    }
                },
                _ => {
                    settled = true;
                    proof {
                        assert forall|below: spec_fn(T, T) -> bool| #[trigger]
                            orders_by(*ord_fn, below) implies
                                !below(nth(data@, j), data@[j - 1]) by {
                            assert(implements(*ord_fn, below));
                        }
                    }
                },
            }
        }
        proof {
            assert forall|below: spec_fn(T, T) -> bool| #[trigger]
                orders_by(*ord_fn, below) implies forall|a: int, b: int|
                0 <= a < b < i + 1 && b < n ==>
                    !below(#[trigger] data@[b], #[trigger] data@[a]) by {
                assert forall|a: int, b: int| 0 <= a < b < i + 1 && b < n implies !below(
                    #[trigger] data@[b],
                    #[trigger] data@[a],
                ) by {
                    if b == j {
                        assert(!below(nth(data@, j), data@[j - 1]));
                        if a < j - 1 {
                            assert(!below(data@[j - 1], data@[a]));
                            lemma_not_below(below, data@[a], data@[j - 1], nth(data@, j));
                        }
                    } else {
                        assert(!below(data@[b], data@[a]));
                    }
                }
            }
        }
        i += 1;
    }
}

/// Given an ordering function, pick an arbitrary pivot and partition the
/// slice, returning the pivot.
pub fn partition_by<T, F: Fn(&T, &T) -> Ordering>(data: &mut [T], ord_fn: &F) -> (pivot: usize)
    requires
        old(data)@.len() > 0,
        accepts_all::<T, F>(*ord_fn),
    ensures
        pivot < final(data)@.len(),
        final(data)@.len() == old(data)@.len(),
        final(data)@.to_multiset() == old(data)@.to_multiset(),
        forall|below: spec_fn(T, T) -> bool| #[trigger]
            orders_by(*ord_fn, below) ==> split_under(below, final(data)@, pivot),
{
    let len = data.len();
    let pivot_idx = pick_pivot(data, ord_fn);
    proof {
        lemma_swapped_same_elements(data@, position(pivot_idx), len - 1);
    }
    swap(data, pivot_idx, len - 1);
    let mut curr: usize = 0;
    let mut i: usize = 0;
    let ghost pivot = data@[len - 1];
    while i < len - 1
        invariant
            curr <= i <= len - 1,
            data@.len() == len,
            accepts_all::<T, F>(*ord_fn),
            data@.to_multiset() == old(data)@.to_multiset(),
            data@[len - 1] == pivot,
            forall|below: spec_fn(T, T) -> bool| #[trigger]
                orders_by(*ord_fn, below) ==> (forall|a: int|
                    0 <= a < curr ==> below(#[trigger] data@[a], pivot)) && (forall|a: int|
                    curr <= a < i ==> !below(#[trigger] data@[a], pivot)),
        decreases len - i,
    {
        assert(call_requires(*ord_fn, (&nth(data@, i), &data@[len - 1])));
        let answer = ord_fn(&data[i], &data[len - 1]);
        assert(call_ensures(*ord_fn, (&nth(data@, i), &data@[len - 1]), answer));
        let ghost before = data@;
        match answer {
            Ordering::Less => {
                proof {
                    lemma_swapped_same_elements(before, position(i), position(curr));
                }
                swap(data, i, curr);
                curr += 1;
                proof {
                    assert forall|below: spec_fn(T, T) -> bool| #[trigger]
                        orders_by(*ord_fn, below) implies (forall|a: int|
                        0 <= a < curr ==> below(#[trigger] data@[a], pivot)) && (forall|a: int|
                        curr <= a < i + 1 ==> !below(#[trigger] data@[a], pivot)) by {
                        assert(implements(*ord_fn, below));
                        assert(below(nth(before, i), pivot));
                        assert forall|a: int| 0 <= a < curr implies below(
                            #[trigger] data@[a],
                            pivot,
                        ) by {
                            if a < curr - 1 {
                                assert(below(before[a], pivot));
                            }
                        }
                        assert forall|a: int| curr <= a < i + 1 implies !below(
                            #[trigger] data@[a],
                            pivot,
                        ) by {
                            if a == i {
                                assert(!below(before[curr - 1], pivot));
                            } else {
                                assert(!below(before[a], pivot));
                            }
                        }
                    }
                }
            },
            _ => {
                proof {
                    assert forall|below: spec_fn(T, T) -> bool| #[trigger]
                        orders_by(*ord_fn, below) implies (forall|a: int|
                        0 <= a < curr ==> below(#[trigger] data@[a], pivot)) && (forall|a: int|
                        curr <= a < i + 1 ==> !below(#[trigger] data@[a], pivot)) by {
                        assert(implements(*ord_fn, below));
                        assert(!below(nth(before, i), pivot));
                        assert forall|a: int| curr <= a < i + 1 implies !below(
                            #[trigger] data@[a],
                            pivot,
                        ) by {
                            if a < i {
                                assert(!below(before[a], pivot));
                            }
                        }
                    }
                }
            },
        }
        i += 1;
    }
    let ghost before = data@;
    proof {
        lemma_swapped_same_elements(before, position(curr), len - 1);
    }
    swap(data, curr, len - 1);
    proof {
        assert forall|below: spec_fn(T, T) -> bool| #[trigger]
            orders_by(*ord_fn, below) implies split_under(below, data@, curr) by {
            assert(nth(data@, curr) == pivot);
            assert forall|a: int| 0 <= a < curr implies below(#[trigger] data@[a], pivot) by {
                assert(below(before[a], pivot));
            }
            assert forall|a: int| curr < a < len implies !below(#[trigger] data@[a], pivot) by {
                if a == len - 1 {
                    if curr < len - 1 {
                        assert(!below(before[position(curr)], pivot));
                    }
                } else {
                    assert(!below(before[a], pivot));
                }
            }
        }
    }
    curr
}

/// The position of the median of the first, the middle and the last
/// element.
fn pick_pivot<T, F: Fn(&T, &T) -> Ordering>(data: &[T], ord_fn: &F) -> (pivot: usize)
    requires
        data@.len() > 0,
        accepts_all::<T, F>(*ord_fn),
    ensures
        pivot < data@.len(),
        pivot == 0 || pivot == middle(data@) || pivot == data@.len() - 1,
        forall|below: spec_fn(T, T) -> bool| #[trigger]
            orders_by(*ord_fn, below) ==> is_median_under(
                below,
                data@[0],
                nth(data@, middle(data@)),
                data@[data@.len() - 1],
                nth(data@, pivot),
            ),
{
    let len = data.len();
    let first = (&data[0], 0usize);
    let mid = (&data[len / 2], len / 2);
    let last = (&data[len - 1], len - 1);
    let by_element = |left: &(&T, usize), right: &(&T, usize)| -> (o: Ordering)
        requires
            call_requires(ord_fn, (left.0, right.0)),
        ensures
            call_ensures(ord_fn, (left.0, right.0), o),
        { ord_fn(left.0, right.0) };
    assert(accepts_all::<(&T, usize), _>(by_element)) by {
        assert forall|a: (&T, usize), b: (&T, usize)| #[trigger]
            call_requires(by_element, (&a, &b)) by {
            assert(call_requires(*ord_fn, (&*a.0, &*b.0)));
            assert(call_requires(ord_fn, (a.0, b.0)));
        }
    }
    let median = median_of_3_by(first, mid, last, by_element);
    proof {
        assert forall|below: spec_fn(T, T) -> bool| #[trigger]
            orders_by(*ord_fn, below) implies is_median_under(
            below,
            data@[0],
            nth(data@, middle(data@)),
            data@[data@.len() - 1],
            nth(data@, median.1),
        ) by {
            let below_element = |a: (&T, usize), b: (&T, usize)| below(*a.0, *b.0);
            assert(implements(by_element, below_element)) by {
                assert forall|a: (&T, usize), b: (&T, usize), o: Ordering| #[trigger]
                    call_ensures(by_element, (&a, &b), o) implies (o == Ordering::Less
                    <==> below_element(a, b)) && (o == Ordering::Greater <==> below_element(
                    b,
                    a,
                )) by {
                    assert(call_ensures(ord_fn, (a.0, b.0), o));
                    assert(call_ensures(*ord_fn, (&*a.0, &*b.0), o));
                }
            }
            assert(is_strict_weak(below_element)) by {
                assert forall|a: (&T, usize), b: (&T, usize)| #[trigger]
                    below_element(a, b) implies !below_element(b, a) by {
                    assert(below(*a.0, *b.0));
                }
                assert forall|a: (&T, usize), b: (&T, usize), c: (&T, usize)| #[trigger]
                    below_element(a, c) implies #[trigger] below_element(a, b)
                    || #[trigger] below_element(b, c) by {
                    assert(below(*a.0, *c.0));
                    assert(below(*a.0, *b.0) || below(*b.0, *c.0));
                }
            }
            assert(orders_by(by_element, below_element));
            assert(is_median_under(below_element, first, mid, last, median));
            let (a, c) = choose|a: (&T, usize), c: (&T, usize)|
                #![trigger rearranged(first, mid, last, a, median, c)]
                rearranged(first, mid, last, a, median, c) && !below_element(median, a)
                    && !below_element(c, median);
            assert(rearranged(
                data@[0],
                nth(data@, middle(data@)),
                data@[data@.len() - 1],
                *a.0,
                nth(data@, median.1),
                *c.0,
            ));
            assert(!below(nth(data@, median.1), *a.0));
            assert(!below(*c.0, nth(data@, median.1)));
        }
    }
    median.1
}

/// Rearranges `data` so that the element at position `k` is the one that
/// would be there if `data` were sorted.
fn settle<T, F: Fn(&T, &T) -> Ordering>(data: &mut [T], k: usize, ord_fn: &F)
    requires
        k < old(data)@.len(),
        accepts_all::<T, F>(*ord_fn),
    ensures
        final(data)@.len() == old(data)@.len(),
        final(data)@.to_multiset() == old(data)@.to_multiset(),
        forall|below: spec_fn(T, T) -> bool| #[trigger]
            orders_by(*ord_fn, below) ==> selected_under(below, final(data)@, k),
    decreases old(data)@.len(),
{
    let len = data.len();
    if len < SORT_THRESH {
        sort_small(data, ord_fn);
        return ;
    }
    let pivot_idx = partition_by(data, ord_fn);
    let ghost parted = data@;
    if k == pivot_idx {
        proof {
            assert forall|below: spec_fn(T, T) -> bool| #[trigger]
                orders_by(*ord_fn, below) implies selected_under(below, data@, k) by {
                assert(split_under(below, data@, pivot_idx));
                assert forall|i: int| 0 <= i < k <= data@.len() implies !below(
                    nth(data@, k),
                    #[trigger] data@[i],
                ) by {
                    assert(below(data@[i], nth(data@, k)));
                }
            }
        }
    } else if k < pivot_idx {
        let (left, right) = data.split_at_mut(pivot_idx);
        let ghost low = left@;
        let ghost high = right@;
        settle(left, k, ord_fn);
        proof {
            let done = left@ + high;
            assert(parted =~= low + high);
            vstd::seq_lib::lemma_multiset_commutative(left@, high);
            vstd::seq_lib::lemma_multiset_commutative(low, high);
            assert forall|below: spec_fn(T, T) -> bool| #[trigger]
                orders_by(*ord_fn, below) implies selected_under(below, done, k) by {
                assert(split_under(below, parted, pivot_idx));
                assert(selected_under(below, left@, k));
                let chosen = nth(left@, k);
                lemma_same_elements_holds(low, left@, position(k));
                let from = choose|from: int| 0 <= from < low.len() && low[from] == chosen;
                assert(below(parted[from], nth(parted, pivot_idx)));
                assert forall|i: int| 0 <= i < k <= done.len() implies !below(
                    nth(done, k),
                    #[trigger] done[i],
                ) by {
                    assert(!below(nth(left@, k), left@[i]));
                }
                assert forall|i: int| k < i < done.len() implies !below(
                    #[trigger] done[i],
                    nth(done, k),
                ) by {
                    if i < pivot_idx {
                        assert(!below(left@[i], nth(left@, k)));
                    } else {
                        assert(done[i] == parted[i]);
                        if i > pivot_idx {
                            assert(!below(parted[i], nth(parted, pivot_idx)));
                        }
                        if below(done[i], chosen) {
                            lemma_transitive(below, done[i], chosen, nth(parted, pivot_idx));
                        }
                    }
                }
            }
        }
    } else {
        let (left, right) = data.split_at_mut(pivot_idx + 1);
        let ghost low = left@;
        let ghost high = right@;
        let inner = k - pivot_idx - 1;
        settle(right, inner, ord_fn);
        proof {
            let done = low + right@;
            assert(parted =~= low + high);
            vstd::seq_lib::lemma_multiset_commutative(low, right@);
            vstd::seq_lib::lemma_multiset_commutative(low, high);
            assert forall|below: spec_fn(T, T) -> bool| #[trigger]
                orders_by(*ord_fn, below) implies selected_under(below, done, k) by {
                assert(split_under(below, parted, pivot_idx));
                assert(selected_under(below, right@, inner));
                let chosen = nth(right@, inner);
                assert(nth(done, k) == chosen);
                lemma_same_elements_holds(high, right@, position(inner));
                let from = choose|from: int| 0 <= from < high.len() && high[from] == chosen;
                assert(high[from] == parted[pivot_idx + 1 + from]);
                assert(!below(parted[pivot_idx + 1 + from], nth(parted, pivot_idx)));
                assert forall|i: int| 0 <= i < k <= done.len() implies !below(
                    nth(done, k),
                    #[trigger] done[i],
                ) by {
                    if i > pivot_idx {
                        assert(right@[i - pivot_idx - 1] == done[i]);
                        assert(!below(nth(right@, inner), right@[i - pivot_idx - 1]));
                    } else {
                        assert(done[i] == parted[i]);
                        if i < pivot_idx {
                            assert(below(parted[i], nth(parted, pivot_idx)));
                            if below(chosen, done[i]) {
                                lemma_transitive(below, chosen, done[i], nth(parted, pivot_idx));
                            }
                        }
                    }
                }
                assert forall|i: int| k < i < done.len() implies !below(
                    #[trigger] done[i],
                    nth(done, k),
                ) by {
                    assert(right@[i - pivot_idx - 1] == done[i]);
                    assert(!below(right@[i - pivot_idx - 1], nth(right@, inner)));
                }
            }
        }
    }
}

/// `arranged` holds the elements of `from` with the one at position `k`
/// where it would be if they were sorted by `ord_fn`.
pub open spec fn selects_by<T, F: Fn(&T, &T) -> Ordering>(
    ord_fn: F,
    from: Seq<T>,
    arranged: Seq<T>,
    k: usize,
) -> bool {
    &&& arranged.len() == from.len()
    &&& arranged.to_multiset() == from.to_multiset()
    &&& forall|below: spec_fn(T, T) -> bool| #[trigger]
        orders_by(ord_fn, below) ==> selected_under(below, arranged, k)
}

/// Use the Quickselect algorithm, given an ordering function,
/// to select the `k`th smallest element from `data`. As part of the
/// algorithm, `k` is moved to its final sorted position and the rest of the
/// array is (at least) partially sorted.
///
/// For a version that uses extra space but does not reorder the slice, use
/// `qselect_by`.
pub fn qselect_inplace_by<T, F: Fn(&T, &T) -> Ordering>(data: &mut [T], k: usize, ord_fn: F) -> (r:
    &mut T)
    requires
        k < old(data)@.len(),
        accepts_all::<T, F>(ord_fn),
    ensures
        exists|arranged: Seq<T>|
            #![trigger selects_by(ord_fn, old(data)@, arranged, k)]
            selects_by(ord_fn, old(data)@, arranged, k) && *r == nth(arranged, k) && final(data)@
                == with_nth(arranged, k, *final(r)),
{
    settle(data, k, &ord_fn);
    proof {
        assert(selects_by(ord_fn, old(data)@, data@, k));
    }
    &mut data[k]
}

/// The element of `s` at position `k` is where it would be if `s` were
/// sorted: no element before it is above it, and no element behind it is
/// below it.
pub open spec fn selected<T: PartialOrd>(s: Seq<T>, k: usize) -> bool {
    &&& forall|i: int| 0 <= i < k <= s.len() ==> le(#[trigger] s[i], nth(s, k))
    &&& forall|i: int| k < i < s.len() ==> le(nth(s, k), #[trigger] s[i])
}

/// `arranged` holds the elements of `from`, and where `<` is a strict weak
/// order that the three-way comparison of `T` agrees with, the one at
/// position `k` is where it would be if they were sorted.
pub open spec fn selects<T: Ord>(from: Seq<T>, arranged: Seq<T>, k: usize) -> bool {
    &&& arranged.len() == from.len()
    &&& arranged.to_multiset() == from.to_multiset()
    &&& three_way_is_specified::<T>() && strict_weak_order::<T>() ==> selected(arranged, k)
}

/// What is selected under `<` is selected.
pub proof fn lemma_selected_naturally<T: Ord>(s: Seq<T>, k: usize)
    requires
        selected_under(natural_order::<T>(), s, k),
    ensures
        selected(s, k),
{
    let below = natural_order::<T>();
    assert forall|i: int| 0 <= i < k <= s.len() implies le(#[trigger] s[i], nth(s, k)) by {
        assert(!below(nth(s, k), s[i]));
    }
    assert forall|i: int| k < i < s.len() implies le(nth(s, k), #[trigger] s[i]) by {
        assert(!below(s[i], nth(s, k)));
    }
}

/// Use the Quickselect algorithm to select the `k`th smallest element from
/// `data`. As part of the algorithm, `k` is moved to its final sorted
/// position and the rest of the array is (at least) partially sorted.
///
/// For a version that uses extra space but does not reorder the slice, use
/// `qselect`.
pub fn qselect_inplace<T: Ord>(data: &mut [T], k: usize) -> (r: &mut T)
    requires
        k < old(data)@.len(),
    ensures
        exists|arranged: Seq<T>|
            #![trigger selects(old(data)@, arranged, k)]
            selects(old(data)@, arranged, k) && *r == nth(arranged, k) && final(data)@
                == with_nth(arranged, k, *final(r)),
{
    let by_cmp = |a: &T, b: &T| -> (o: Ordering)
        ensures
            T::obeys_cmp_spec() ==> o == a.cmp_spec(b),
        { a.cmp(b) };
    proof {
        if three_way_is_specified::<T>() {
            lemma_three_way_implements::<T, _>(by_cmp);
        }
    }
    proof {
        assert forall|arranged: Seq<T>| #[trigger]
            selects_by(by_cmp, old(data)@, arranged, k) implies selects(
            old(data)@,
            arranged,
            k,
        ) by {
            if three_way_is_specified::<T>() && strict_weak_order::<T>() {
                assert(orders_by(by_cmp, natural_order::<T>()));
                lemma_selected_naturally(arranged, k);
            }
        }
    }
    qselect_inplace_by(data, k, by_cmp)
}

/// Use the Quickselect algorithm to select the `k`th smallest
/// element from `data`.
///
/// Does not modify `data`. Allocates an additional vector for scratch
/// space; see `qselect_inplace` for an in-place version.
pub fn qselect<T: Ord>(data: &[T], k: usize) -> (r: &T)
    requires
        k < data@.len(),
    ensures
        exists|arranged: Seq<T>|
            #![trigger selects(data@, arranged, k)]
            selects(data@, arranged, k) && *r == nth(arranged, k),
{
    let by_cmp = |a: &T, b: &T| -> (o: Ordering)
        ensures
            T::obeys_cmp_spec() ==> o == a.cmp_spec(b),
        { a.cmp(b) };
    proof {
        if three_way_is_specified::<T>() {
            lemma_three_way_implements::<T, _>(by_cmp);
        }
    }
    let r = qselect_by(data, k, by_cmp);
    proof {
        let arranged = choose|arranged: Seq<T>|
            #![trigger selects_by(by_cmp, data@, arranged, k)]
            selects_by(by_cmp, data@, arranged, k) && *r == nth(arranged, k);
        if three_way_is_specified::<T>() && strict_weak_order::<T>() {
            assert(orders_by(by_cmp, natural_order::<T>()));
            lemma_selected_naturally(arranged, k);
        }
        assert(selects(data@, arranged, k));
    }
    r
}

/// The values that the references of `s` refer to.
pub open spec fn targets<T>(s: Seq<&T>) -> Seq<T> {
    Seq::new(s.len(), |i: int| *s[i])
}

/// References that are the same up to their order refer to values that are
/// the same up to their order.
pub proof fn lemma_targets_of_same<T>(a: Seq<&T>, b: Seq<&T>)
    requires
        a.to_multiset() == b.to_multiset(),
    ensures
        targets(a).to_multiset() == targets(b).to_multiset(),
    decreases a.len(),
{
    broadcast use vstd::seq_lib::group_to_multiset_ensures;

    a.to_multiset_ensures();
    b.to_multiset_ensures();
    assert(a.len() == b.len());
    if a.len() == 0 {
        assert(targets(a) =~= targets(b));
    } else {
        let x = a.last();
        assert(a.to_multiset().contains(x));
        assert(b.contains(x));
        let j = choose|j: int| 0 <= j < b.len() && b[j] == x;
        let a1 = a.drop_last();
        let b1 = b.remove(j);
        vstd::seq_lib::to_multiset_remove(a, a.len() - 1);
        vstd::seq_lib::to_multiset_remove(b, j);
        assert(a.remove(a.len() - 1) =~= a1);
        lemma_targets_of_same(a1, b1);
        assert(targets(a).remove(a.len() - 1) =~= targets(a1));
        assert(targets(b).remove(j) =~= targets(b1));
        vstd::seq_lib::to_multiset_remove(targets(a), a.len() - 1);
        vstd::seq_lib::to_multiset_remove(targets(b), j);
        let v = *x;
        assert(targets(a)[a.len() - 1] == v);
        assert(targets(b)[j] == v);
        assert(targets(a).to_multiset().contains(v));
        assert(targets(b).to_multiset().contains(v));
        assert(targets(a).to_multiset() =~= targets(a1).to_multiset().insert(v));
        assert(targets(b).to_multiset() =~= targets(b1).to_multiset().insert(v));
    }
}

/// Use the Quickselect algorithm, given an ordering function, to select the
/// `k`th smallest element from `data`.
///
/// Does not modify `data`. Allocates an additional vector for scratch
/// space; see `qselect_inplace_by` for an in-place version.
pub fn qselect_by<'a, T, F: Fn(&T, &T) -> Ordering>(data: &'a [T], k: usize, ord_fn: F) -> (r:
    &'a T)
    requires
        k < data@.len(),
        accepts_all::<T, F>(ord_fn),
    ensures
        exists|arranged: Seq<T>|
            #![trigger selects_by(ord_fn, data@, arranged, k)]
            selects_by(ord_fn, data@, arranged, k) && *r == nth(arranged, k),
{
    let len = data.len();
    let mut refs: Vec<&'a T> = Vec::with_capacity(len);
    let mut i: usize = 0;
    while i < len
        invariant
            i <= len,
            len == data@.len(),
            refs@.len() == i,
            forall|j: int| 0 <= j < i ==> *(#[trigger] refs@[j]) == data@[j],
        decreases len - i,
    {
        refs.push(&data[i]);
        i += 1;
    }
    let ghost spread = refs@;
    assert(targets(spread) =~= data@);
    let asked = &ord_fn;
    let by_target = |l: &&T, r: &&T| -> (o: Ordering)
        requires
            call_requires(asked, (*l, *r)),
        ensures
            call_ensures(asked, (*l, *r), o),
        { asked(*l, *r) };
    assert(accepts_all::<&T, _>(by_target)) by {
        assert forall|a: &T, b: &T| #[trigger] call_requires(by_target, (&a, &b)) by {
            assert(call_requires(ord_fn, (&*a, &*b)));
            assert(call_requires(asked, (a, b)));
        }
    }
    let chosen = *qselect_inplace_by(refs.as_mut_slice(), k, by_target);
    proof {
        let moved = choose|moved: Seq<&T>|
            #![trigger selects_by(by_target, spread, moved, k)]
            selects_by(by_target, spread, moved, k) && chosen == nth(moved, k);
        let arranged = targets(moved);
        lemma_targets_of_same(moved, spread);
        assert forall|below: spec_fn(T, T) -> bool| #[trigger]
            orders_by(ord_fn, below) implies selected_under(below, arranged, k) by {
            let below_target = |a: &T, b: &T| below(*a, *b);
            assert(implements(by_target, below_target)) by {
                assert forall|a: &T, b: &T, o: Ordering| #[trigger]
                    call_ensures(by_target, (&a, &b), o) implies (o == Ordering::Less
                    <==> below_target(a, b)) && (o == Ordering::Greater <==> below_target(
                    b,
                    a,
                )) by {
                    assert(call_ensures(asked, (a, b), o));
                    assert(call_ensures(ord_fn, (&*a, &*b), o));
                }
            }
            assert(is_strict_weak(below_target)) by {
                assert forall|a: &T, b: &T| #[trigger] below_target(a, b) implies !below_target(
                    b,
                    a,
                ) by {
                    assert(below(*a, *b));
                }
                assert forall|a: &T, b: &T, c: &T| #[trigger]
                    below_target(a, c) implies #[trigger] below_target(a, b)
                    || #[trigger] below_target(b, c) by {
                    assert(below(*a, *c));
                    assert(below(*a, *b) || below(*b, *c));
                }
            }
            assert(orders_by(by_target, below_target));
            assert(selected_under(below_target, moved, k));
            assert forall|i: int| 0 <= i < k <= arranged.len() implies !below(
                nth(arranged, k),
                #[trigger] arranged[i],
            ) by {
                assert(!below_target(nth(moved, k), moved[i]));
            }
            assert forall|i: int| k < i < arranged.len() implies !below(
                #[trigger] arranged[i],
                nth(arranged, k),
            ) by {
                assert(!below_target(moved[i], nth(moved, k)));
            }
        }
        assert(selects_by(ord_fn, data@, arranged, k));
        assert(*chosen == nth(arranged, k));
    }
    chosen
}

} // verus!
