//! Insertion sort, in three variations.

use crate::order::{greater, le, lemma_le_transitive, lt, sorted, sorted_between, strict_weak_order};
use crate::slices::{lemma_swapped_same_elements, swap, swapped};
use vstd::prelude::*;

verus! {

/// The first `i + 1` elements of `s` are in order but for the one at `j`,
/// which may be below some of its predecessors.
pub open spec fn sorted_but<T: PartialOrd>(s: Seq<T>, i: int, j: int) -> bool {
    forall|a: int, b: int| 0 <= a < b <= i && b != j ==> le(#[trigger] s[a], #[trigger] s[b])
}

/// Sorts `arr` by moving each element down past its larger predecessors.
pub fn sort<T: PartialOrd>(arr: &mut [T])
    ensures
        final(arr)@.to_multiset() == old(arr)@.to_multiset(),
        strict_weak_order::<T>() ==> sorted(final(arr)@),
{
    let n = arr.len();
    let mut i: usize = 1;
    while i < n
        invariant
            1 <= i,
            i <= n || i == 1,
            arr@.len() == n,
            arr@.to_multiset() == old(arr)@.to_multiset(),
            strict_weak_order::<T>() && i <= n ==> sorted_between(arr@, 0, i as int),
        decreases n - i,
    {
        let mut j: usize = i;
        while j > 0 && greater(&arr[j - 1], &arr[j])
            invariant
                j <= i < n,
                arr@.len() == n,
                arr@.to_multiset() == old(arr)@.to_multiset(),
                strict_weak_order::<T>() ==> sorted_but(arr@, i as int, j as int),
            decreases j,
        {
            let ghost before = arr@;
            proof {
                lemma_swapped_same_elements(before, j - 1, j as int);
            }
            swap(arr, j - 1, j);
            j = j - 1;
            proof {
                if strict_weak_order::<T>() {
                    assert forall|a: int, b: int| 0 <= a < b <= i && b != j implies le(
                        #[trigger] arr@[a],
                        #[trigger] arr@[b],
                    ) by {
                        if b == j + 1 {
                            if a == j {
                                assert(lt(before[j + 1], before[j as int]));
                            } else {
                                assert(le(before[a], before[j as int]));
                            }
                        } else if a == j {
                            assert(le(before[j as int], before[b]));
                            lemma_le_transitive(before[j + 1], before[j as int], before[b]);
                        } else if a == j + 1 {
                            assert(le(before[j as int], before[b]));
                        } else {
                            assert(le(before[a], before[b]));
                        }
                    }
                }
            }
        }
        proof {
            if strict_weak_order::<T>() {
                assert forall|a: int, b: int| 0 <= a < b < i + 1 implies le(
                    #[trigger] arr@[a],
                    #[trigger] arr@[b],
                ) by {
                    if b == j {
                        assert(le(arr@[j - 1], arr@[j as int]));
                        if a < j - 1 {
                            assert(le(arr@[a], arr@[j - 1]));
                            lemma_le_transitive(arr@[a], arr@[j - 1], arr@[j as int]);
                        }
                    } else {
                        assert(le(arr@[a], arr@[b]));
                    }
                }
            }
        }
        i += 1;
    }
}

/// Sorts `arr` by lifting each element out, moving its larger predecessors
/// one place up, and setting it down in the gap.
pub fn sort_with_copy<T: PartialOrd + Copy>(arr: &mut [T])
    ensures
        final(arr)@.to_multiset() == old(arr)@.to_multiset(),
        strict_weak_order::<T>() ==> sorted(final(arr)@),
{
    let n = arr.len();
    let mut i: usize = 1;
    while i < n
        invariant
            1 <= i,
            i <= n || i == 1,
            arr@.len() == n,
            arr@.to_multiset() == old(arr)@.to_multiset(),
            strict_weak_order::<T>() && i <= n ==> sorted_between(arr@, 0, i as int),
        decreases n - i,
    {
        let key = arr[i];
        let mut j: usize = i;
        assert(arr@.update(j as int, key) =~= arr@);
        while j > 0 && greater(&arr[j - 1], &key)
            invariant
                j <= i < n,
                arr@.len() == n,
                arr@.update(j as int, key).to_multiset() == old(arr)@.to_multiset(),
                strict_weak_order::<T>() ==>
                    sorted_but(arr@.update(j as int, key), i as int, j as int),
            decreases j,
        {
            let ghost before = arr@.update(j as int, key);
            proof {
                lemma_swapped_same_elements(before, j - 1, j as int);
            }
            arr[j] = arr[j - 1];
            j = j - 1;
            proof {
                let now = arr@.update(j as int, key);
                assert(now =~= swapped(before, j as int, j + 1));
                if strict_weak_order::<T>() {
                    assert forall|a: int, b: int| 0 <= a < b <= i && b != j implies le(
                        #[trigger] now[a],
                        #[trigger] now[b],
                    ) by {
                        if b == j + 1 {
                            if a == j {
                                assert(lt(before[j + 1], before[j as int]));
                            } else {
                                assert(le(before[a], before[j as int]));
                            }
                        } else if a == j {
                            assert(le(before[j as int], before[b]));
                            lemma_le_transitive(before[j + 1], before[j as int], before[b]);
                        } else if a == j + 1 {
                            assert(le(before[j as int], before[b]));
                        } else {
                            assert(le(before[a], before[b]));
                        }
                    }
                }
            }
        }
        arr[j] = key;
        proof {
            if strict_weak_order::<T>() {
                assert forall|a: int, b: int| 0 <= a < b < i + 1 implies le(
                    #[trigger] arr@[a],
                    #[trigger] arr@[b],
                ) by {
                    if b == j {
                        assert(le(arr@[j - 1], arr@[j as int]));
                        if a < j - 1 {
                            assert(le(arr@[a], arr@[j - 1]));
                            lemma_le_transitive(arr@[a], arr@[j - 1], arr@[j as int]);
                        }
                    } else {
                        assert(le(arr@[a], arr@[b]));
                    }
                }
            }
        }
        i += 1;
    }
}

/// A place in the sorted first `len` elements of `arr` at which `arr[len]`
/// can be inserted: no element before it is above `arr[len]`, and none from
/// it on is below.
pub fn insertion_point<T: PartialOrd>(arr: &[T], len: usize) -> (at: usize)
    requires
        len < arr@.len(),
        strict_weak_order::<T>() ==> sorted_between(arr@, 0, len as int),
    ensures
        at <= len,
        strict_weak_order::<T>() ==> forall|a: int| 0 <= a < at ==>
            le(#[trigger] arr@[a], arr@[len as int]),
        strict_weak_order::<T>() ==> forall|b: int|
            at <= b < len ==> lt(arr@[len as int], #[trigger] arr@[b]),
{
    let mut low: usize = 0;
    let mut high: usize = len;
    while low < high
        invariant
            low <= high <= len < arr@.len(),
            strict_weak_order::<T>() ==> sorted_between(arr@, 0, len as int),
            strict_weak_order::<T>() ==> forall|a: int|
                0 <= a < low ==> le(#[trigger] arr@[a], arr@[len as int]),
            strict_weak_order::<T>() ==> forall|b: int|
                high <= b < len ==> lt(arr@[len as int], #[trigger] arr@[b]),
        decreases high - low,
    {
        let mid = low + (high - low) / 2;
        if greater(&arr[mid], &arr[len]) {
            proof {
                if strict_weak_order::<T>() {
                    assert forall|b: int| mid <= b < len implies lt(
                        arr@[len as int],
                        #[trigger] arr@[b],
                    ) by {
                        if b > mid {
                            assert(le(arr@[mid as int], arr@[b]));
                            crate::order::lemma_lt_le_transitive(
                                arr@[len as int],
                                arr@[mid as int],
                                arr@[b],
                            );
                        }
                    }
                }
            }
            high = mid;
        } else {
            proof {
                if strict_weak_order::<T>() {
                    assert forall|a: int| 0 <= a < mid + 1 implies le(
                        #[trigger] arr@[a],
                        arr@[len as int],
                    ) by {
                        if a < mid {
                            assert(le(arr@[a], arr@[mid as int]));
                            lemma_le_transitive(arr@[a], arr@[mid as int], arr@[len as int]);
                        }
                    }
                }
            }
            low = mid + 1;
        }
    }
    low
}

/// Sorts `arr` by finding the place of each element among its sorted
/// predecessors with a binary search and moving it down to that place.
pub fn sort_with_binary_search<T: Ord>(arr: &mut [T])
    ensures
        final(arr)@.to_multiset() == old(arr)@.to_multiset(),
        strict_weak_order::<T>() ==> sorted(final(arr)@),
{
    let n = arr.len();
    let mut i: usize = 1;
    while i < n
        invariant
            1 <= i,
            i <= n || i == 1,
            arr@.len() == n,
            arr@.to_multiset() == old(arr)@.to_multiset(),
            strict_weak_order::<T>() && i <= n ==> sorted_between(arr@, 0, i as int),
        decreases n - i,
    {
        let idx = insertion_point(arr, i);
        let mut j: usize = 0;
        while j < i - idx
            invariant
                idx <= i < n,
                j <= i - idx,
                arr@.len() == n,
                arr@.to_multiset() == old(arr)@.to_multiset(),
                strict_weak_order::<T>() ==> sorted_but(arr@, i as int, i - j),
                strict_weak_order::<T>() ==> forall|a: int|
                    0 <= a < idx ==> le(#[trigger] arr@[a], arr@[i - j]),
                strict_weak_order::<T>() ==> forall|b: int|
                    idx <= b < i - j ==> lt(arr@[i - j], #[trigger] arr@[b]),
            decreases i - idx - j,
        {
            let ghost before = arr@;
            let ghost p = i - j;
            proof {
                lemma_swapped_same_elements(before, p, p - 1);
            }
            swap(arr, i - j, i - j - 1);
            j += 1;
            proof {
                if strict_weak_order::<T>() {
                    assert(lt(before[p], before[p - 1]));
                    assert forall|a: int, b: int| 0 <= a < b <= i && b != p - 1 implies le(
                        #[trigger] arr@[a],
                        #[trigger] arr@[b],
                    ) by {
                        if b == p {
                            if a == p - 1 {
                            } else {
                                assert(le(before[a], before[p - 1]));
                            }
                        } else if a == p - 1 {
                            assert(le(before[p - 1], before[b]));
                            lemma_le_transitive(before[p], before[p - 1], before[b]);
                        } else if a == p {
                            assert(le(before[p - 1], before[b]));
                        } else {
                            assert(le(before[a], before[b]));
                        }
                    }
                    assert forall|a: int| 0 <= a < idx implies
                        le(#[trigger] arr@[a], arr@[p - 1]) by {
                        assert(le(before[a], before[p]));
                    }
                    assert forall|b: int| idx <= b < p - 1 implies lt(
                        arr@[p - 1],
                        #[trigger] arr@[b],
                    ) by {
                        assert(lt(before[p], before[b]));
                    }
                }
            }
        }
        proof {
            if strict_weak_order::<T>() {
                assert forall|a: int, b: int| 0 <= a < b < i + 1 implies le(
                    #[trigger] arr@[a],
                    #[trigger] arr@[b],
                ) by {
                    if b == idx {
                        assert(le(arr@[a], arr@[idx as int]));
                    } else {
                        assert(le(arr@[a], arr@[b]));
                    }
                }
            }
        }
        i += 1;
    }
}

} // verus!
