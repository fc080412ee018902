//! What the sorting and selection routines need to know about slices.

use vstd::prelude::*;

verus! {

/// `s` with the elements at `i` and `j` exchanged.
pub open spec fn swapped<T>(s: Seq<T>, i: int, j: int) -> Seq<T> {
    s.update(i, s[j]).update(j, s[i])
}

/// The element of `s` at position `i`.
pub open spec fn nth<T>(s: Seq<T>, i: usize) -> T {
    s[i as int]
}

/// `s` with the element at position `i` replaced by `x`.
pub open spec fn with_nth<T>(s: Seq<T>, i: usize, x: T) -> Seq<T> {
    s.update(i as int, x)
}

/// The middle position of `s`: half the length of `s`, rounded down.
pub open spec fn middle<T>(s: Seq<T>) -> usize {
    (s.len() / 2) as usize
}

/// The position `i` as an integer.
pub open spec fn position(i: usize) -> int {
    i as int
}

/// An element of `b` is an element of `a`, where the two hold the same
/// elements.
pub proof fn lemma_same_elements_holds<T>(a: Seq<T>, b: Seq<T>, j: int)
    requires
        a.to_multiset() == b.to_multiset(),
        0 <= j < b.len(),
    ensures
        exists|i: int| 0 <= i < a.len() && a[i] == b[j],
        a.len() == b.len(),
{
    a.to_multiset_ensures();
    b.to_multiset_ensures();
    assert(b.to_multiset().contains(b[j]));
    assert(a.contains(b[j]));
}

/// Exchanges the elements of `slice` at the positions `a` and `b`.
pub fn swap<T>(slice: &mut [T], a: usize, b: usize)
    requires
        a < old(slice)@.len(),
        b < old(slice)@.len(),
    ensures
        final(slice)@ == swapped(old(slice)@, a as int, b as int),
{
    if a != b {
        let (low, high) = if a < b {
            (a, b)
        } else {
            (b, a)
        };
        let (front, back) = slice.split_at_mut(high);
        core::mem::swap(&mut front[low], &mut back[0]);
        assert(slice@ =~= swapped(old(slice)@, a as int, b as int));
    } else {
        assert(slice@ =~= swapped(old(slice)@, a as int, b as int));
    }
}

/// Exchanging two elements keeps the elements, each as often as before.
pub proof fn lemma_swapped_same_elements<T>(s: Seq<T>, i: int, j: int)
    requires
        0 <= i < s.len(),
        0 <= j < s.len(),
    ensures
        swapped(s, i, j).to_multiset() == s.to_multiset(),
        swapped(s, i, j).len() == s.len(),
{
    broadcast use vstd::seq_lib::to_multiset_update;
    let mid = s.update(i, s[j]);
    assert(mid.to_multiset() == s.to_multiset().insert(s[j]).remove(s[i]));
    assert(swapped(s, i, j).to_multiset() == mid.to_multiset().insert(s[i]).remove(mid[j]));
    s.to_multiset_ensures();
    assert(s.to_multiset().contains(s[i]));
    assert(s.to_multiset().contains(s[j]));
    if i == j {
        assert(swapped(s, i, j) =~= s);
    } else {
        assert(mid[j] == s[j]);
        assert(s.to_multiset().insert(s[j]).remove(s[i]).insert(s[i]).remove(s[j])
            =~= s.to_multiset());
    }
}

} // verus!
