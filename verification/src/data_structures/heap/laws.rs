//! What follows from the contracts of the heap's operations, whatever
//! lies behind them.

use crate::order::{is_minimum, le, lt, sorted, strict_weak_order, strictly_sorted};
use vstd::multiset::Multiset;
use vstd::prelude::*;

verus! {

/// The contents of a heap that held `start` after the values of `pushed`
/// have been pushed, one after the other.
pub open spec fn pushed_onto<T>(start: Multiset<T>, pushed: Seq<T>) -> Multiset<T>
    decreases pushed.len(),
{
    if pushed.len() == 0 {
        start
    } else {
        pushed_onto(start, pushed.drop_last()).insert(pushed.last())
    }
}

/// `popped` may be what successive calls of `pop` return on a heap that
/// holds `start`: each value is a least one of what the calls before it
/// have left.
pub open spec fn drains<T: PartialOrd>(start: Multiset<T>, popped: Seq<T>) -> bool
    decreases popped.len(),
{
    popped.len() == 0 || (is_minimum(popped[0], start) && drains(
        start.remove(popped[0]),
        popped.drop_first(),
    ))
}

/// No two values of `s`, at different places, are equivalent: one of them
/// is strictly below the other.
pub open spec fn pairwise_distinct<T: PartialOrd>(s: Seq<T>) -> bool {
    forall|i: int, j: int|
        0 <= i < s.len() && 0 <= j < s.len() && i != j ==> lt(#[trigger] s[i], #[trigger] s[j])
            || lt(s[j], s[i])
}

/// Pushing values onto an empty heap leaves the heap with exactly these
/// values.
pub proof fn lemma_pushed<T>(pushed: Seq<T>)
    ensures
        pushed_onto(Multiset::empty(), pushed) == pushed.to_multiset(),
    decreases pushed.len(),
{
    broadcast use vstd::seq_lib::group_to_multiset_ensures;

    if pushed.len() == 0 {
        assert(pushed.to_multiset().len() == 0);
        assert(pushed.to_multiset() =~= Multiset::<T>::empty());
    } else {
        lemma_pushed(pushed.drop_last());
        assert(pushed =~= pushed.drop_last().push(pushed.last()));
    }
}

/// Pushing first the values of `a` and then those of `b` is pushing the
/// values of `a + b`.
pub proof fn lemma_pushed_twice<T>(start: Multiset<T>, a: Seq<T>, b: Seq<T>)
    ensures
        pushed_onto(pushed_onto(start, a), b) == pushed_onto(start, a + b),
    decreases b.len(),
{
    if b.len() == 0 {
        assert(a + b =~= a);
    } else {
        lemma_pushed_twice(start, a, b.drop_last());
        assert((a + b).drop_last() =~= a + b.drop_last());
    }
}

/// Every value that is popped was in the heap, and popping as many values
/// as the heap holds brings out all of them.
pub proof fn lemma_drained_values<T: PartialOrd>(start: Multiset<T>, popped: Seq<T>)
    requires
        drains(start, popped),
    ensures
        popped.to_multiset().subset_of(start),
        popped.len() <= start.len(),
        popped.len() == start.len() ==> popped.to_multiset() == start,
    decreases popped.len(),
{
    broadcast use vstd::seq_lib::group_to_multiset_ensures;

    if popped.len() == 0 {
        assert(popped.to_multiset().len() == 0);
        assert(popped.to_multiset() =~= Multiset::<T>::empty());
        if start.len() == 0 {
            assert(start =~= Multiset::<T>::empty());
        }
    } else {
        let first = popped[0];
        let rest = popped.drop_first();
        let left = start.remove(first);
        lemma_drained_values(left, rest);
        assert(popped =~= seq![first] + rest);
        vstd::seq_lib::lemma_multiset_commutative(seq![first], rest);
        assert(seq![first].to_multiset() =~= Multiset::singleton(first)) by {
            assert(seq![first] =~= Seq::<T>::empty().push(first));
        }
        assert(popped.to_multiset() =~= rest.to_multiset().insert(first));
        assert(left.insert(first) =~= start);
        assert(left.len() == start.len() - 1);
        if popped.len() == start.len() {
            assert(rest.to_multiset() == left);
        }
        assert forall|v: T| popped.to_multiset().count(v) <= start.count(v) by {
            assert(rest.to_multiset().count(v) <= left.count(v));
        }
    }
}

/// **Sorted extraction.** Whatever `pop` returns, call after call, comes in
/// non-decreasing order; and when as many values are popped as the heap
/// holds, they are the values of the heap.
pub proof fn lemma_drained_in_order<T: PartialOrd>(start: Multiset<T>, popped: Seq<T>)
    requires
        strict_weak_order::<T>(),
        drains(start, popped),
    ensures
        sorted(popped),
        popped.len() == start.len() ==> popped.to_multiset() == start,
    decreases popped.len(),
{
    broadcast use vstd::seq_lib::group_to_multiset_ensures;

    lemma_drained_values(start, popped);
    if popped.len() > 0 {
        let first = popped[0];
        let rest = popped.drop_first();
        let left = start.remove(first);
        lemma_drained_in_order(left, rest);
        lemma_drained_values(left, rest);
        assert forall|i: int, j: int| 0 <= i < j < popped.len() implies le(
            #[trigger] popped[i],
            #[trigger] popped[j],
        ) by {
            if i == 0 {
                assert(rest[j - 1] == popped[j]);
                assert(rest.to_multiset().contains(rest[j - 1]));
                assert(rest.to_multiset().count(popped[j]) <= left.count(popped[j]));
                assert(start.contains(popped[j]));
            } else {
                assert(le(rest[i - 1], rest[j - 1]));
            }
        }
    }
}

/// **Sorted extraction of pushed values.** Pushing the values of `pushed`
/// onto an empty heap and then popping as many values yields the pushed
/// values in non-decreasing order, and in strictly increasing order if no
/// two of them are equivalent.
pub proof fn lemma_sorted_extraction<T: PartialOrd>(pushed: Seq<T>, popped: Seq<T>)
    requires
        strict_weak_order::<T>(),
        drains(pushed_onto(Multiset::empty(), pushed), popped),
        popped.len() == pushed.len(),
    ensures
        sorted(popped),
        popped.to_multiset() == pushed.to_multiset(),
        pairwise_distinct(pushed) ==> strictly_sorted(popped),
{
    broadcast use vstd::seq_lib::group_to_multiset_ensures;

    lemma_pushed(pushed);
    lemma_drained_in_order(pushed.to_multiset(), popped);
    if pairwise_distinct(pushed) {
        assert forall|i: int, j: int| 0 <= i < j < popped.len() implies lt(
            #[trigger] popped[i],
            #[trigger] popped[j],
        ) by {
            lemma_found_apart(pushed, popped, i, j);
            let (a, b) = choose|a: int, b: int|
                0 <= a < pushed.len() && 0 <= b < pushed.len() && a != b && pushed[a]
                    == popped[i] && pushed[b] == popped[j];
            assert(lt(pushed[a], pushed[b]) || lt(pushed[b], pushed[a]));
            assert(le(popped[i], popped[j]));
        }
    }
}

/// Two places of a sequence hold values that another sequence with the
/// same values holds at two places as well.
pub proof fn lemma_found_apart<T>(a: Seq<T>, b: Seq<T>, i: int, j: int)
    requires
        a.to_multiset() == b.to_multiset(),
        0 <= i < j < b.len(),
    ensures
        exists|x: int, y: int|
            0 <= x < a.len() && 0 <= y < a.len() && x != y && a[x] == b[i] && a[y] == b[j],
{
    broadcast use vstd::seq_lib::group_to_multiset_ensures;

    assert(b.to_multiset().contains(b[i]));
    assert(a.contains(b[i]));
    let x = choose|x: int| 0 <= x < a.len() && a[x] == b[i];
    // Take the two values out of both sequences, one after the other.
    let a1 = a.remove(x);
    let b1 = b.remove(i);
    vstd::seq_lib::to_multiset_remove(a, x);
    vstd::seq_lib::to_multiset_remove(b, i);
    assert(a1.to_multiset() == b1.to_multiset());
    assert(b1[j - 1] == b[j]);
    assert(b1.to_multiset().contains(b1[j - 1]));
    assert(a1.contains(b[j]));
    let y1 = choose|y: int| 0 <= y < a1.len() && a1[y] == b[j];
    let y = if y1 < x {
        y1
    } else {
        y1 + 1
    };
    assert(a[y] == b[j]);
}

/// **Merge preserves the values.** Merging a heap that was filled with the
/// values of `a` with one that was filled with the values of `b` and popping
/// as many values as both held yields the values of both in non-decreasing
/// order.
pub proof fn lemma_merged_extraction<T: PartialOrd>(a: Seq<T>, b: Seq<T>, popped: Seq<T>)
    requires
        strict_weak_order::<T>(),
        drains(
            pushed_onto(Multiset::empty(), a).add(pushed_onto(Multiset::empty(), b)),
            popped,
        ),
        popped.len() == a.len() + b.len(),
    ensures
        sorted(popped),
        popped.to_multiset() == (a + b).to_multiset(),
{
    broadcast use vstd::seq_lib::group_to_multiset_ensures;

    lemma_pushed(a);
    lemma_pushed(b);
    vstd::seq_lib::lemma_multiset_commutative(a, b);
    lemma_drained_in_order((a + b).to_multiset(), popped);
}

} // verus!
