//! Merge sort.

use crate::order::{le, lemma_le_transitive, less, lt, sorted, sorted_between, strict_weak_order};
use vstd::prelude::*;

verus! {

/// Sorts `arr` by sorting its two halves and merging them.
pub fn sort<T: PartialOrd + Copy>(arr: &mut [T])
    ensures
        final(arr)@.to_multiset() == old(arr)@.to_multiset(),
        strict_weak_order::<T>() ==> sorted(final(arr)@),
    decreases old(arr)@.len(),
{
    let len = arr.len();
    if len > 1 {
        let ghost whole = arr@;
        let (left, right) = arr.split_at_mut(len / 2);
        let ghost low = left@;
        let ghost high = right@;
        sort(left);
        sort(right);
        proof {
            vstd::seq_lib::lemma_multiset_commutative(left@, right@);
            vstd::seq_lib::lemma_multiset_commutative(low, high);
            assert(whole =~= low + high);
            left@.to_multiset_ensures();
            low.to_multiset_ensures();
            right@.to_multiset_ensures();
            high.to_multiset_ensures();
            if strict_weak_order::<T>() {
                let joined = left@ + right@;
                assert forall|a: int, b: int| 0 <= a < b < len / 2 implies le(
                    #[trigger] joined[a],
                    #[trigger] joined[b],
                ) by {
                    assert(le(left@[a], left@[b]));
                }
                assert forall|a: int, b: int| len / 2 <= a < b < len implies le(
                    #[trigger] joined[a],
                    #[trigger] joined[b],
                ) by {
                    assert(le(right@[a - len / 2], right@[b - len / 2]));
                }
            }
        }
        merge(arr);
    }
}

/// The first no elements of a sequence are no elements.
pub proof fn lemma_nothing_taken<T>(s: Seq<T>)
    ensures
        s.take(0).to_multiset() == vstd::multiset::Multiset::<T>::empty(),
{
    broadcast use vstd::seq_lib::to_multiset_len;
    broadcast use vstd::multiset::lemma_multiset_empty_len;
    assert(s.take(0).to_multiset().len() == 0);
    assert(s.take(0).to_multiset() =~= vstd::multiset::Multiset::<T>::empty());
}

/// Merges the sorted first half of `arr` with its sorted second half.
pub fn merge<T: PartialOrd + Copy>(arr: &mut [T])
    requires
        strict_weak_order::<T>() ==> sorted_between(old(arr)@, 0, old(arr)@.len() as int / 2),
        strict_weak_order::<T>() ==> sorted_between(
            old(arr)@,
            old(arr)@.len() as int / 2,
            old(arr)@.len() as int,
        ),
    ensures
        final(arr)@.to_multiset() == old(arr)@.to_multiset(),
        strict_weak_order::<T>() ==> sorted(final(arr)@),
{
    let len = arr.len();
    let left_len = len / 2;
    let right_len = len - left_len;
    let mut left: Vec<T> = Vec::with_capacity(left_len);
    let mut right: Vec<T> = Vec::with_capacity(right_len);
    let mut k: usize = 0;
    while k < left_len
        invariant
            k <= left_len <= len,
            arr@ == old(arr)@,
            arr@.len() == len,
            left@ == arr@.subrange(0, k as int),
        decreases left_len - k,
    {
        left.push(arr[k]);
        k += 1;
        assert(left@ =~= arr@.subrange(0, k as int));
    }
    while k < len
        invariant
            left_len <= k <= len,
            arr@ == old(arr)@,
            arr@.len() == len,
            left@ == arr@.subrange(0, left_len as int),
            right@ == arr@.subrange(left_len as int, k as int),
        decreases len - k,
    {
        right.push(arr[k]);
        k += 1;
        assert(right@ =~= arr@.subrange(left_len as int, k as int));
    }
    proof {
        assert(old(arr)@ =~= left@ + right@);
        vstd::seq_lib::lemma_multiset_commutative(left@, right@);
        if strict_weak_order::<T>() {
            assert forall|a: int, b: int| 0 <= a < b < left@.len() implies le(
                #[trigger] left@[a],
                #[trigger] left@[b],
            ) by {
                assert(le(old(arr)@[a], old(arr)@[b]));
            }
            assert forall|a: int, b: int| 0 <= a < b < right@.len() implies le(
                #[trigger] right@[a],
                #[trigger] right@[b],
            ) by {
                assert(le(old(arr)@[a + left_len], old(arr)@[b + left_len]));
            }
        }
    }
    let mut i: usize = 0;
    let mut j: usize = 0;
    let mut k: usize = 0;
    proof {
        lemma_nothing_taken(left@);
        lemma_nothing_taken(right@);
        lemma_nothing_taken(arr@);
        assert(arr@.take(0).to_multiset() =~= left@.take(0).to_multiset().add(
            right@.take(0).to_multiset(),
        ));
    }
    while k < len
        invariant
            k == i + j,
            i <= left_len,
            j <= right_len,
            left@.len() == left_len,
            right@.len() == right_len,
            len == left_len + right_len,
            arr@.len() == len,
            arr@.take(k as int).to_multiset() == left@.take(i as int).to_multiset().add(
                right@.take(j as int).to_multiset(),
            ),
            strict_weak_order::<T>() ==> sorted(left@) && sorted(right@),
            strict_weak_order::<T>() ==> sorted_between(arr@, 0, k as int),
            strict_weak_order::<T>() ==> forall|a: int, b: int|
                0 <= a < k && i <= b < left_len ==> le(#[trigger] arr@[a], #[trigger] left@[b]),
            strict_weak_order::<T>() ==> forall|a: int, b: int|
                0 <= a < k && j <= b < right_len ==> le(#[trigger] arr@[a], #[trigger] right@[b]),
        decreases len - k,
    {
        let ghost before = arr@;
        if i < left_len && (j == right_len || less(&left[i], &right[j])) {
            arr[k] = left[i];
            proof {
                let x = left@[i as int];
                assert(arr@.take(k + 1) =~= before.take(k as int).push(x));
                assert(left@.take(i + 1) =~= left@.take(i as int).push(x));
                vstd::seq_lib::to_multiset_build(before.take(k as int), x);
                vstd::seq_lib::to_multiset_build(left@.take(i as int), x);
                assert(left@.take(i as int).to_multiset().add(right@.take(j as int).to_multiset()).insert(x)
                    =~= left@.take(i as int).to_multiset().insert(x).add(
                    right@.take(j as int).to_multiset(),
                ));
                if strict_weak_order::<T>() {
                    assert forall|a: int, b: int| 0 <= a < b < k + 1 implies le(
                        #[trigger] arr@[a],
                        #[trigger] arr@[b],
                    ) by {
                        if b == k {
                            assert(le(before[a], left@[i as int]));
                        } else {
                            assert(le(before[a], before[b]));
                        }
                    }
                    assert forall|a: int, b: int| 0 <= a < k + 1 && i + 1 <= b < left_len implies
                        le(
                        #[trigger] arr@[a],
                        #[trigger] left@[b],
                    ) by {
                        if a == k {
                            assert(le(left@[i as int], left@[b]));
                        } else {
                            assert(le(before[a], left@[b]));
                        }
                    }
                    assert forall|a: int, b: int| 0 <= a < k + 1 && j <= b < right_len implies le(
                        #[trigger] arr@[a],
                        #[trigger] right@[b],
                    ) by {
                        if a == k {
                            assert(lt(left@[i as int], right@[j as int]));
                            assert(le(left@[i as int], right@[j as int]));
                            if b > j {
                                assert(le(right@[j as int], right@[b]));
                                lemma_le_transitive(left@[i as int], right@[j as int], right@[b]);
                            }
                        } else {
                            assert(le(before[a], right@[b]));
                        }
                    }
                }
            }
            i = i + 1;
        } else {
            arr[k] = right[j];
            proof {
                let x = right@[j as int];
                assert(arr@.take(k + 1) =~= before.take(k as int).push(x));
                assert(right@.take(j + 1) =~= right@.take(j as int).push(x));
                vstd::seq_lib::to_multiset_build(before.take(k as int), x);
                vstd::seq_lib::to_multiset_build(right@.take(j as int), x);
                assert(left@.take(i as int).to_multiset().add(right@.take(j as int).to_multiset()).insert(x)
                    =~= left@.take(i as int).to_multiset().add(
                    right@.take(j as int).to_multiset().insert(x),
                ));
                if strict_weak_order::<T>() {
                    assert forall|a: int, b: int| 0 <= a < b < k + 1 implies le(
                        #[trigger] arr@[a],
                        #[trigger] arr@[b],
                    ) by {
                        if b == k {
                            assert(le(before[a], right@[j as int]));
                        } else {
                            assert(le(before[a], before[b]));
                        }
                    }
                    assert forall|a: int, b: int| 0 <= a < k + 1 && j + 1 <= b < right_len implies
                        le(
                        #[trigger] arr@[a],
                        #[trigger] right@[b],
                    ) by {
                        if a == k {
                            assert(le(right@[j as int], right@[b]));
                        } else {
                            assert(le(before[a], right@[b]));
                        }
                    }
                    assert forall|a: int, b: int| 0 <= a < k + 1 && i <= b < left_len implies le(
                        #[trigger] arr@[a],
                        #[trigger] left@[b],
                    ) by {
                        if a == k {
                            assert(le(right@[j as int], left@[i as int]));
                            if b > i {
                                assert(le(left@[i as int], left@[b]));
                                lemma_le_transitive(right@[j as int], left@[i as int], left@[b]);
                            }
                        } else {
                            assert(le(before[a], left@[b]));
                        }
                    }
                }
            }
            j = j + 1;
        }
        k += 1;
    }
    proof {
        assert(arr@.take(len as int) =~= arr@);
        assert(left@.take(left_len as int) =~= left@);
        assert(right@.take(right_len as int) =~= right@);
    }
}

} // verus!
