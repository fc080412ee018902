//! Heap sort.

use crate::order::{
    le, lemma_le_reflexive, lemma_le_transitive, less, lt, sorted, sorted_between,
    strict_weak_order,
};
use crate::slices::{lemma_swapped_same_elements, swap, swapped};
use vstd::prelude::*;

verus! {

/// In `s`, up to position `end`, no element whose parent is at `start` or
/// later is above that parent: the elements from `start` on form max-heaps.
pub open spec fn heap_from<T: PartialOrd>(s: Seq<T>, start: int, end: int) -> bool {
    forall|c: int| 0 < c <= end && (c - 1) / 2 >= start ==> le(#[trigger] s[c], s[(c - 1) / 2])
}

/// As `heap_from`, but the element at `root` may be below its children. Its
/// children are not above its parent, where that parent is at `start` or
/// later.
pub open spec fn heap_but<T: PartialOrd>(s: Seq<T>, start: int, end: int, root: int) -> bool {
    &&& forall|c: int|
        0 < c <= end && (c - 1) / 2 >= start && (c - 1) / 2 != root ==> le(
            #[trigger] s[c],
            s[(c - 1) / 2],
        )
    &&& root > 0 && (root - 1) / 2 >= start ==> forall|c: int|
        0 < c <= end && (c - 1) / 2 == root ==> le(#[trigger] s[c], s[(root - 1) / 2])
}

/// The first element of a max-heap is not below any other.
pub proof fn lemma_heap_top<T: PartialOrd>(s: Seq<T>, end: int, k: int)
    requires
        strict_weak_order::<T>(),
        heap_from(s, 0, end),
        0 <= k <= end,
    ensures
        le(s[k], s[0]),
    decreases k,
{
    if k == 0 {
        lemma_le_reflexive(s[0]);
    } else {
        lemma_heap_top(s, end, (k - 1) / 2);
        assert(le(s[k], s[(k - 1) / 2]));
        lemma_le_transitive(s[k], s[(k - 1) / 2], s[0]);
    }
}

/// Sorts `arr` by turning it into a max-heap and repeatedly moving the top
/// of the heap behind it.
///
/// The positions of the children of every element must be in the range of
/// `usize`, as they are in every slice whose elements take up space.
pub fn sort<T: PartialOrd>(arr: &mut [T])
    requires
        old(arr)@.len() <= usize::MAX / 2,
    ensures
        final(arr)@.to_multiset() == old(arr)@.to_multiset(),
        strict_weak_order::<T>() ==> sorted(final(arr)@),
{
    let len = arr.len();
    if len < 2 {
        return ;
    }
    heapify(arr);
    let mut end = len - 1;
    while end > 0
        invariant
            end < len,
            len <= usize::MAX / 2,
            arr@.len() == len,
            arr@.to_multiset() == old(arr)@.to_multiset(),
            strict_weak_order::<T>() ==> heap_from(arr@, 0, end as int),
            strict_weak_order::<T>() ==> sorted_between(arr@, end + 1, len as int),
            strict_weak_order::<T>() ==> forall|a: int, b: int|
                0 <= a <= end < b < len ==> le(#[trigger] arr@[a], #[trigger] arr@[b]),
        decreases end,
    {
        let ghost before = arr@;
        proof {
            lemma_swapped_same_elements(before, 0, end as int);
            if strict_weak_order::<T>() {
                assert forall|a: int| 0 <= a <= end implies le(#[trigger] before[a], before[0]) by {
                    lemma_heap_top(before, end as int, a);
                }
            }
        }
        swap(arr, 0, end);
        end -= 1;
        let ghost mid = arr@;
        proof {
            if strict_weak_order::<T>() {
                assert forall|c: int| 0 < c <= end && (c - 1) / 2 >= 1 implies le(
                    #[trigger] mid[c],
                    mid[(c - 1) / 2],
                ) by {
                    assert(le(before[c], before[(c - 1) / 2]));
                }
            }
        }
        sift_down(arr, 0, end);
        proof {
            lemma_whole_from_parts(mid, arr@, 0, end + 1);
            if strict_weak_order::<T>() {
                assert forall|a: int, b: int| 0 <= a <= end < b < len implies le(
                    #[trigger] arr@[a],
                    #[trigger] arr@[b],
                ) by {
                    lemma_within(mid, arr@, 0, end + 1, a);
                    let a0 = choose|a0: int| 0 <= a0 < end + 1 && mid[a0] == arr@[a];
                    if b == end + 1 {
                        assert(mid[b] == before[0]);
                        if a0 == 0 {
                            assert(mid[0] == before[end + 1]);
                            assert(le(before[end + 1], before[0]));
                        } else {
                            assert(le(before[a0], before[0]));
                        }
                    } else {
                        assert(mid[b] == before[b]);
                        if a0 == 0 {
                            assert(le(before[end + 1], before[b]));
                        } else {
                            assert(le(before[a0], before[b]));
                        }
                    }
                }
                assert forall|a: int, b: int| end + 1 <= a < b < len implies le(
                    #[trigger] arr@[a],
                    #[trigger] arr@[b],
                ) by {
                    assert(arr@[b] == before[b]);
                    if a == end + 1 {
                        assert(arr@[a] == before[0]);
                        assert(le(before[0], before[b]));
                    } else {
                        assert(arr@[a] == before[a]);
                        assert(le(before[a], before[b]));
                    }
                }
            }
        }
    }
    proof {
        if strict_weak_order::<T>() {
            assert forall|a: int, b: int| 0 <= a < b < len implies le(
                #[trigger] arr@[a],
                #[trigger] arr@[b],
            ) by {
                if a == 0 {
                    assert(le(arr@[a], arr@[b]));
                } else {
                    assert(le(arr@[a], arr@[b]));
                }
            }
        }
    }
}

/// An element of `after` between `lo` and `hi` is an element of `before`
/// between `lo` and `hi`, where the two hold the same elements there.
pub proof fn lemma_within<T>(before: Seq<T>, after: Seq<T>, lo: int, hi: int, a: int)
    requires
        0 <= lo <= a < hi <= before.len(),
        before.len() == after.len(),
        after.subrange(lo, hi).to_multiset() == before.subrange(lo, hi).to_multiset(),
    ensures
        exists|a0: int| lo <= a0 < hi && before[a0] == after[a],
{
    let x = after[a];
    after.subrange(lo, hi).to_multiset_ensures();
    before.subrange(lo, hi).to_multiset_ensures();
    assert(after.subrange(lo, hi)[a - lo] == x);
    assert(after.subrange(lo, hi).contains(x));
    assert(before.subrange(lo, hi).to_multiset().count(x) > 0);
    assert(before.subrange(lo, hi).contains(x));
    let k = choose|k: int| 0 <= k < hi - lo && before.subrange(lo, hi)[k] == x;
    assert(before[k + lo] == x);
}

/// Turns `arr` into a max-heap.
pub fn heapify<T: PartialOrd>(arr: &mut [T])
    requires
        0 < old(arr)@.len() <= usize::MAX / 2,
    ensures
        final(arr)@.len() == old(arr)@.len(),
        final(arr)@.to_multiset() == old(arr)@.to_multiset(),
        strict_weak_order::<T>() ==> heap_from(final(arr)@, 0, final(arr)@.len() - 1),
{
    let end = arr.len() - 1;
    if end == 0 {
        return ;
    }
    let mut start = parent(end);
    loop
        invariant_except_break
            strict_weak_order::<T>() ==> heap_from(arr@, start + 1, end as int),
        invariant
            start <= end < usize::MAX / 2,
            arr@.len() == end + 1,
            arr@.to_multiset() == old(arr)@.to_multiset(),
        ensures
            strict_weak_order::<T>() ==> heap_from(arr@, 0, end as int),
        decreases start,
    {
        let ghost before = arr@;
        sift_down(arr, start, end);
        proof {
            before.to_multiset_ensures();
            arr@.to_multiset_ensures();
            lemma_whole_from_parts(before, arr@, start as int, end + 1);
        }
        if start == 0 {
            break ;
        }
        start -= 1;
    }
}

/// Sequences that agree outside a range and hold the same elements inside
/// it hold the same elements.
pub proof fn lemma_whole_from_parts<T>(before: Seq<T>, after: Seq<T>, lo: int, hi: int)
    requires
        0 <= lo <= hi <= before.len(),
        before.len() == after.len(),
        after.subrange(lo, hi).to_multiset() == before.subrange(lo, hi).to_multiset(),
        forall|k: int| 0 <= k < lo || hi <= k < before.len() ==> after[k] == before[k],
    ensures
        after.to_multiset() == before.to_multiset(),
{
    let n = before.len() as int;
    assert(before =~= before.subrange(0, lo) + before.subrange(lo, hi) + before.subrange(hi, n));
    assert(after =~= after.subrange(0, lo) + after.subrange(lo, hi) + after.subrange(hi, n));
    assert(after.subrange(0, lo) =~= before.subrange(0, lo));
    assert(after.subrange(hi, n) =~= before.subrange(hi, n));
    vstd::seq_lib::lemma_multiset_commutative(
        before.subrange(0, lo) + before.subrange(lo, hi),
        before.subrange(hi, n),
    );
    vstd::seq_lib::lemma_multiset_commutative(before.subrange(0, lo), before.subrange(lo, hi));
    vstd::seq_lib::lemma_multiset_commutative(
        after.subrange(0, lo) + after.subrange(lo, hi),
        after.subrange(hi, n),
    );
    vstd::seq_lib::lemma_multiset_commutative(after.subrange(0, lo), after.subrange(lo, hi));
}

/// Exchanging two elements inside a range keeps the elements of the range.
pub proof fn lemma_swapped_within<T>(s: Seq<T>, lo: int, hi: int, i: int, j: int)
    requires
        0 <= lo <= i < hi <= s.len(),
        lo <= j < hi,
    ensures
        swapped(s, i, j).subrange(lo, hi).to_multiset() == s.subrange(lo, hi).to_multiset(),
{
    assert(swapped(s, i, j).subrange(lo, hi) =~= swapped(s.subrange(lo, hi), i - lo, j - lo));
    lemma_swapped_same_elements(s.subrange(lo, hi), i - lo, j - lo);
}

/// Lets the element at `start` sink until it is not below its children,
/// which completes the max-heaps from `start` on where those behind `start`
/// are max-heaps already. Only the elements from `start` to `end` are
/// rearranged.
pub fn sift_down<T: PartialOrd>(arr: &mut [T], start: usize, end: usize)
    requires
        start <= end < old(arr)@.len(),
        end < usize::MAX / 2,
        strict_weak_order::<T>() ==> heap_from(old(arr)@, start + 1, end as int),
    ensures
        final(arr)@.len() == old(arr)@.len(),
        final(arr)@.subrange(start as int, end + 1).to_multiset() == old(arr)@.subrange(
            start as int,
            end + 1,
        ).to_multiset(),
        forall|k: int|
            0 <= k < start || end < k < old(arr)@.len() ==> final(arr)@[k] == old(arr)@[k],
        strict_weak_order::<T>() ==> heap_from(final(arr)@, start as int, end as int),
{
    let mut root = start;
    let mut left = left_child(root);
    while left <= end
        invariant
            start <= root <= end < arr@.len(),
            end < usize::MAX / 2,
            left == 2 * root + 1,
            arr@.len() == old(arr)@.len(),
            arr@.subrange(start as int, end + 1).to_multiset() == old(arr)@.subrange(
                start as int,
                end + 1,
            ).to_multiset(),
            forall|k: int|
                0 <= k < start || end < k < old(arr)@.len() ==> arr@[k] == old(arr)@[k],
            strict_weak_order::<T>() ==> heap_but(arr@, start as int, end as int, root as int),
        ensures
            arr@.len() == old(arr)@.len(),
            arr@.subrange(start as int, end + 1).to_multiset() == old(arr)@.subrange(
                start as int,
                end + 1,
            ).to_multiset(),
            forall|k: int|
                0 <= k < start || end < k < old(arr)@.len() ==> arr@[k] == old(arr)@[k],
            strict_weak_order::<T>() ==> heap_from(arr@, start as int, end as int),
        decreases end - root,
    {
        let mut swap_with = root;
        let right = right_child(root);
        if less(&arr[swap_with], &arr[left]) {
            swap_with = left;
        }
        if right <= end && less(&arr[swap_with], &arr[right]) {
            swap_with = right;
        }
        if swap_with == root {
            proof {
                if strict_weak_order::<T>() {
                    assert forall|c: int| 0 < c <= end && (c - 1) / 2 >= start implies le(
                        #[trigger] arr@[c],
                        arr@[(c - 1) / 2],
                    ) by {
                        if (c - 1) / 2 == root {
                            assert(c == left || c == right);
                        }
                    }
                }
            }
            break ;
        } else {
            let ghost before = arr@;
            proof {
                lemma_swapped_within(before, start as int, end + 1, root as int, swap_with as int);
            }
            swap(arr, root, swap_with);
            proof {
                if strict_weak_order::<T>() {
                    let r = root as int;
                    let w = swap_with as int;
                    // the larger child is now the parent of the other child
                    assert(lt(before[r], before[w]));
                    assert(le(before[left as int], before[w])) by {
                        if w == left {
                            lemma_le_reflexive(before[w]);
                        } else {
                            if lt(before[r], before[left as int]) {
                            } else {
                                lemma_le_transitive(before[left as int], before[r], before[w]);
                            }
                        }
                    }
                    if right <= end {
                        assert(le(before[right as int], before[w])) by {
                            if w == right {
                                lemma_le_reflexive(before[w]);
                            } else {
                                assert(w == left);
                            }
                        }
                    }
                    assert forall|c: int|
                        0 < c <= end && (c - 1) / 2 >= start && (c - 1) / 2 != w implies le(
                        #[trigger] arr@[c],
                        arr@[(c - 1) / 2],
                    ) by {
                        let p = (c - 1) / 2;
                        if p == r {
                            assert(c == left || c == right);
                            if c == w {
                                assert(le(before[r], before[w]));
                            }
                        } else if c == r {
                            assert(r > 0 && (r - 1) / 2 >= start);
                            assert(le(before[w], before[(r - 1) / 2]));
                        } else {
                            assert(c != w);
                            assert(le(before[c], before[p]));
                        }
                    }
                    assert forall|c: int| 0 < c <= end && (c - 1) / 2 == w implies le(
                        #[trigger] arr@[c],
                        arr@[(w - 1) / 2],
                    ) by {
                        assert(le(before[c], before[w]));
                    }
                }
            }
            root = swap_with;
            left = left_child(root);
        }
    }
    proof {
        if strict_weak_order::<T>() && left > end {
            assert forall|c: int| 0 < c <= end && (c - 1) / 2 >= start implies le(
                #[trigger] arr@[c],
                arr@[(c - 1) / 2],
            ) by {
                assert((c - 1) / 2 != root);
            }
        }
    }
}

/// The position above position `i` in a heap laid out in a slice.
pub fn parent(i: usize) -> (p: usize)
    requires
        i > 0,
    ensures
        p == (i - 1) / 2,
{
    (i - 1) / 2
}

/// The position of the first child of position `i`.
pub fn left_child(i: usize) -> (c: usize)
    requires
        2 * i + 1 <= usize::MAX,
    ensures
        c == 2 * i + 1,
{
    2 * i + 1
}

/// The position of the second child of position `i`.
pub fn right_child(i: usize) -> (c: usize)
    requires
        2 * i + 2 <= usize::MAX,
    ensures
        c == 2 * i + 2,
{
    2 * i + 2
}

} // verus!
