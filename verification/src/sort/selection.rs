//! Selection sort.

use crate::order::{le, lemma_le_transitive, less, lt, sorted, sorted_between, strict_weak_order};
use crate::slices::{lemma_swapped_same_elements, swap};
use vstd::prelude::*;

verus! {

/// Sorts `arr` by repeatedly exchanging the first unsorted element with the
/// least one that follows.
pub fn sort<T: PartialOrd>(arr: &mut [T])
    ensures
        final(arr)@.to_multiset() == old(arr)@.to_multiset(),
        strict_weak_order::<T>() ==> sorted(final(arr)@),
{
    let len = arr.len();
    if len == 0 {
        return ;
    }
    let mut i: usize = 0;
    while i < len - 1
        invariant
            i <= len - 1,
            arr@.len() == len,
            arr@.to_multiset() == old(arr)@.to_multiset(),
            strict_weak_order::<T>() ==> sorted_between(arr@, 0, i as int),
            strict_weak_order::<T>() ==> forall|a: int, b: int|
                0 <= a < i <= b < len ==> le(#[trigger] arr@[a], #[trigger] arr@[b]),
        decreases len - i,
    {
        let mut min_idx = i;
        let mut j: usize = i + 1;
        while j < len
            invariant
                i < j <= len,
                i <= min_idx < len,
                arr@.len() == len,
                strict_weak_order::<T>() ==> forall|k: int|
                    i <= k < j ==> le(arr@[min_idx as int], #[trigger] arr@[k]),
            decreases len - j,
        {
            if less(&arr[j], &arr[min_idx]) {
                proof {
                    if strict_weak_order::<T>() {
                        assert forall|k: int| i <= k < j + 1 implies le(
                            arr@[j as int],
                            #[trigger] arr@[k],
                        ) by {
                            if k < j {
                                assert(!lt(arr@[min_idx as int], arr@[j as int]));
                                lemma_le_transitive(arr@[j as int], arr@[min_idx as int], arr@[k]);
                            }
                        }
                    }
                }
                min_idx = j;
            }
            j += 1;
        }
        let ghost before = arr@;
        proof {
            lemma_swapped_same_elements(before, min_idx as int, i as int);
        }
        swap(arr, min_idx, i);
        proof {
            if strict_weak_order::<T>() {
                assert forall|a: int, b: int| 0 <= a < b < i + 1 implies le(
                    #[trigger] arr@[a],
                    #[trigger] arr@[b],
                ) by {
                    if b == i {
                        assert(le(before[a], before[min_idx as int]));
                    } else {
                        assert(le(before[a], before[b]));
                    }
                }
                assert forall|a: int, b: int| 0 <= a < i + 1 <= b < len implies le(
                    #[trigger] arr@[a],
                    #[trigger] arr@[b],
                ) by {
                    if a == i {
                        if b == min_idx {
                            assert(le(before[min_idx as int], before[i as int]));
                        } else {
                            assert(le(before[min_idx as int], before[b]));
                        }
                    } else if b == min_idx {
                        assert(le(before[a], before[i as int]));
                    } else {
                        assert(le(before[a], before[b]));
                    }
                }
            }
        }
        i += 1;
    }
    proof {
        if strict_weak_order::<T>() {
            assert forall|a: int, b: int| 0 <= a < b < len implies le(
                #[trigger] arr@[a],
                #[trigger] arr@[b],
            ) by {
                if b == len - 1 {
                    assert(le(arr@[a], arr@[b]));
                }
            }
        }
    }
}

} // verus!
