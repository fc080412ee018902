//! The contiguous part of a slice with the greatest sum, by divide and
//! conquer.

use crate::math::Numeric;
use crate::order::{at_least, greater};
use vstd::prelude::*;

verus! {

/// The sum of the elements of `s` from position `low` to position `high`,
/// both included.
pub open spec fn sum<T: Numeric>(s: Seq<T>, low: int, high: int) -> int
    decreases high - low + 1,
{
    if low > high {
        0
    } else {
        sum(s, low, high - 1) + s[high].value()
    }
}

/// The sum of every contiguous part of `s` is in the range of `T`.
pub open spec fn sums_in_range<T: Numeric>(s: Seq<T>) -> bool {
    forall|i: int, j: int|
        0 <= i <= j < s.len() ==> T::lowest() <= #[trigger] sum(s, i, j) <= T::highest()
}

/// `(first, last, total)` names a part of `s` between `low` and `high` with
/// the greatest sum of all such parts, and that sum.
pub open spec fn is_max_subarray<T: Numeric>(
    s: Seq<T>,
    low: int,
    high: int,
    best: (usize, usize, T),
) -> bool {
    &&& low <= best.0 <= best.1 <= high
    &&& best.2.value() == sum(s, best.0 as int, best.1 as int)
    &&& forall|i: int, j: int| low <= i <= j <= high ==> #[trigger] sum(s, i, j) <= best.2.value()
}

/// A sum is the sum of its first part and the sum of the rest.
pub proof fn lemma_sum_split<T: Numeric>(s: Seq<T>, low: int, mid: int, high: int)
    requires
        low <= mid + 1,
        mid <= high,
    ensures
        sum(s, low, high) == sum(s, low, mid) + sum(s, mid + 1, high),
    decreases high - mid,
{
    if mid < high {
        lemma_sum_split(s, low, mid, high - 1);
    }
}

/// A sum is its first element and the sum of the rest.
pub proof fn lemma_sum_front<T: Numeric>(s: Seq<T>, low: int, high: int)
    requires
        low <= high,
    ensures
        sum(s, low, high) == s[low].value() + sum(s, low + 1, high),
{
    lemma_sum_split(s, low, low, high);
    assert(sum(s, low, low) == sum(s, low, low - 1) + s[low].value());
}

/// The part of `arr` with the greatest sum: the positions of its first and
/// last element, and the sum.
pub fn max_subarray<T>(arr: &[T]) -> (best: (usize, usize, T)) where T: Copy + Numeric
    requires
        arr@.len() > 0,
        sums_in_range(arr@),
    ensures
        is_max_subarray(arr@, 0, arr@.len() - 1, best),
{
    let len = arr.len();
    max_subarray_rec(arr, 0, len - 1)
}

/// The part of `arr` between `low` and `high` with the greatest sum.
pub fn max_subarray_rec<T>(arr: &[T], low: usize, high: usize) -> (best: (usize, usize, T)) where
    T: Copy + Numeric,

    requires
        low <= high < arr@.len(),
        sums_in_range(arr@),
    ensures
        is_max_subarray(arr@, low as int, high as int, best),
    decreases high - low,
{
    if low == high {
        proof {
            assert(sum(arr@, low as int, low as int) == sum(arr@, low as int, low - 1)
                + arr@[low as int].value());
        }
        (low, high, arr[low])
    } else {
        let mid = low + (high - low) / 2;
        let (left_low, left_high, left_max) = max_subarray_rec(arr, low, mid);
        let (right_low, right_high, right_max) = max_subarray_rec(arr, mid + 1, high);
        let (cross_low, cross_high, cross_max) = cross_max_subarray(arr, low, mid, high);
        proof {
            T::lemma_values();
            let top = if left_max.value() >= right_max.value() && left_max.value()
                >= cross_max.value() {
                left_max.value()
            } else if right_max.value() >= left_max.value() && right_max.value()
                >= cross_max.value() {
                right_max.value()
            } else {
                cross_max.value()
            };
            assert forall|i: int, j: int| low <= i <= j <= high implies #[trigger] sum(arr@, i, j)
                <= top by {
                if j <= mid {
                    assert(sum(arr@, i, j) <= left_max.value());
                } else if i > mid {
                    assert(sum(arr@, i, j) <= right_max.value());
                } else {
                    assert(sum(arr@, i, j) <= cross_max.value());
                }
            }
        }
        if at_least(&left_max, &right_max) && at_least(&left_max, &cross_max) {
            (left_low, left_high, left_max)
        } else if at_least(&right_max, &left_max) && at_least(&right_max, &cross_max) {
            (right_low, right_high, right_max)
        } else {
            (cross_low, cross_high, cross_max)
        }
    }
}

/// The part of `arr` between `low` and `high` with the greatest sum among
/// those that hold both the element at `mid` and the one behind it.
pub fn cross_max_subarray<T>(arr: &[T], low: usize, mid: usize, high: usize) -> (best: (
    usize,
    usize,
    T,
)) where T: Copy + Numeric
    requires
        low <= mid < high < arr@.len(),
        sums_in_range(arr@),
    ensures
        low <= best.0 <= mid < best.1 <= high,
        best.2.value() == sum(arr@, best.0 as int, best.1 as int),
        forall|i: int, j: int|
            low <= i <= mid < j <= high ==> #[trigger] sum(arr@, i, j) <= best.2.value(),
{
    let (left_idx, left_max) = cross_part_max(arr, mid, low);
    let (right_idx, right_max) = cross_part_max(arr, mid + 1, high);
    proof {
        lemma_sum_split(arr@, left_idx as int, mid as int, right_idx as int);
        assert(T::lowest() <= sum(arr@, left_idx as int, right_idx as int) <= T::highest());
        T::lemma_ring(left_max, right_max);
        assert forall|i: int, j: int| low <= i <= mid < j <= high implies #[trigger] sum(arr@, i, j)
            <= left_max.value() + right_max.value() by {
            lemma_sum_split(arr@, i, mid as int, j);
            assert(sum(arr@, i, mid as int) <= left_max.value());
            assert(sum(arr@, mid + 1, j) <= right_max.value());
        }
    }
    (left_idx, right_idx, left_max + right_max)
}

/// The run of elements of `arr` that starts at `from` and stretches
/// towards `to`, upwards or downwards, with the greatest sum: the position
/// where it ends, and the sum. Of several such runs it is the shortest.
pub fn cross_part_max<T>(arr: &[T], from: usize, to: usize) -> (best: (usize, T)) where
    T: Copy + Numeric,

    requires
        from < arr@.len(),
        to < arr@.len(),
        sums_in_range(arr@),
    ensures
        from <= to ==> from <= best.0 <= to && best.1.value() == sum(
            arr@,
            from as int,
            best.0 as int,
        ) && forall|j: int| from <= j <= to ==>
            #[trigger] sum(arr@, from as int, j) <= best.1.value(),
        from > to ==> to <= best.0 <= from && best.1.value() == sum(
            arr@,
            best.0 as int,
            from as int,
        ) && forall|i: int| to <= i <= from ==>
            #[trigger] sum(arr@, i, from as int) <= best.1.value(),
{
    let mut idx = from;
    let mut max = arr[idx];
    let mut total = max;
    let mut i = from;
    proof {
        T::lemma_values();
        assert(sum(arr@, from as int, from as int) == sum(arr@, from as int, from - 1)
            + arr@[from as int].value());
    }
    if from <= to {
        while i < to
            invariant
                from <= idx <= i <= to < arr@.len(),
                sums_in_range(arr@),
                total.value() == sum(arr@, from as int, i as int),
                max.value() == sum(arr@, from as int, idx as int),
                forall|j: int| from <= j <= i ==>
                    #[trigger] sum(arr@, from as int, j) <= max.value(),
            decreases to - i,
        {
            i += 1;
            proof {
                T::lemma_values();
                assert(sum(arr@, from as int, i as int) == sum(arr@, from as int, i - 1)
                    + arr@[i as int].value());
                assert(T::lowest() <= sum(arr@, from as int, i as int) <= T::highest());
                T::lemma_ring(total, arr@[i as int]);
            }
            total = total + arr[i];
            if greater(&total, &max) {
                max = total;
                idx = i;
            }
        }
    } else {
        while i > to
            invariant
                to <= i <= idx <= from < arr@.len(),
                sums_in_range(arr@),
                total.value() == sum(arr@, i as int, from as int),
                max.value() == sum(arr@, idx as int, from as int),
                forall|j: int| i <= j <= from ==>
                    #[trigger] sum(arr@, j, from as int) <= max.value(),
            decreases i - to,
        {
            i -= 1;
            proof {
                T::lemma_values();
                lemma_sum_front(arr@, i as int, from as int);
                assert(T::lowest() <= sum(arr@, i as int, from as int) <= T::highest());
                T::lemma_ring(total, arr@[i as int]);
            }
            total = total + arr[i];
            if greater(&total, &max) {
                max = total;
                idx = i;
            }
        }
    }
    (idx, max)
}

} // verus!
