//! Substring search after Knuth, Morris and Pratt.

use crate::order::{equality_is_specified, same};
use vstd::prelude::*;

verus! {

/// `pattern` occurs in `target` at position `at`.
pub open spec fn occurs_at<T>(target: Seq<T>, pattern: Seq<T>, at: int) -> bool {
    &&& 0 <= at
    &&& at + pattern.len() <= target.len()
    &&& forall|t: int| 0 <= t < pattern.len() ==> #[trigger] target[at + t] == pattern[t]
}

/// The first `b` elements of `p` are also the last `b` of its first `len`
/// elements, and `b` is less than `len`: they are a proper border.
pub open spec fn is_border<T>(p: Seq<T>, len: int, b: int) -> bool {
    &&& 0 <= b < len <= p.len()
    &&& forall|t: int| 0 <= t < b ==> p[t] == #[trigger] p[len - b + t]
}

/// The first entry of `table` is -1, and every other entry is neither
/// negative nor as large as its position.
pub open spec fn in_range(table: Seq<isize>) -> bool {
    &&& table.len() > 0
    &&& table[0] == -1
    &&& forall|i: int| 0 < i < table.len() ==> 0 <= #[trigger] table[i] < i
}

/// `table` tells, for each position of `pattern` but the first, the length
/// of the longest proper border of what lies before that position.
pub open spec fn is_failure_table<T>(pattern: Seq<T>, table: Seq<isize>) -> bool {
    &&& table.len() == pattern.len()
    &&& in_range(table)
    &&& forall|i: int| 0 < i < pattern.len() ==> is_border(pattern, i, #[trigger] table[i] as int)
    &&& forall|i: int, b: int|
        0 < i < pattern.len() && #[trigger] is_border(pattern, i, b) ==> b <= #[trigger] table[i]
}

/// `found` is the first position at which `pattern` occurs in `target`, or
/// `None` if it occurs nowhere.
pub open spec fn is_first_occurrence<T>(
    target: Seq<T>,
    pattern: Seq<T>,
    found: Option<usize>,
) -> bool {
    match found {
        Some(at) => occurs_at(target, pattern, at as int) && forall|j: int|
            0 <= j < at ==> !occurs_at(target, pattern, j),
        None => forall|j: int| !occurs_at(target, pattern, j),
    }
}

/// A border of a border is a border.
pub proof fn lemma_border_of_border<T>(p: Seq<T>, len: int, k: int, b: int)
    requires
        is_border(p, len, k),
        is_border(p, k, b),
    ensures
        is_border(p, len, b),
{
    assert forall|t: int| 0 <= t < b implies p[t] == #[trigger] p[len - b + t] by {
        assert(p[t] == p[k - b + t]);
        assert(p[k - b + t] == p[len - k + (k - b + t)]);
    }
}

/// A border that is shorter than another border of the same elements is a
/// border of that border.
pub proof fn lemma_border_within<T>(p: Seq<T>, len: int, k: int, b: int)
    requires
        is_border(p, len, k),
        is_border(p, len, b),
        b < k,
    ensures
        is_border(p, k, b),
{
    assert forall|t: int| 0 <= t < b implies p[t] == #[trigger] p[k - b + t] by {
        assert(p[t] == p[len - b + t]);
        assert(p[k - b + t] == p[len - k + (k - b + t)]);
    }
}

/// A border without its last element is a border of the elements without
/// the last.
pub proof fn lemma_border_shortened<T>(p: Seq<T>, len: int, b: int)
    requires
        is_border(p, len, b),
        b >= 1,
    ensures
        is_border(p, len - 1, b - 1),
        p[b - 1] == p[len - 1],
{
    assert forall|t: int| 0 <= t < b - 1 implies p[t] == #[trigger] p[len - 1 - (b - 1) + t] by {
        assert(p[t] == p[len - b + t]);
    }
    assert(p[b - 1] == p[len - b + (b - 1)]);
}

/// The table that tells, for each position of `pattern`, how far the search
/// falls back when the element at that position does not match.
pub fn build_table<T: PartialEq>(pattern: &[T]) -> (table: Vec<isize>)
    requires
        pattern@.len() <= isize::MAX,
    ensures
        table@.len() == if pattern@.len() == 0 {
            1
        } else {
            pattern@.len() as int
        },
        in_range(table@),
        equality_is_specified::<T>() && pattern@.len() > 0 ==> is_failure_table(pattern@, table@),
{
    let m = pattern.len();
    let mut table: Vec<isize> = Vec::with_capacity(m);
    let mut k: isize;
    table.push(-1);
    let mut i: usize = 1;
    while i < m
        invariant
            1 <= i,
            i <= m || m == 0,
            m == 0 ==> i == 1,
            m == pattern@.len(),
            m <= isize::MAX,
            table@.len() == i,
            in_range(table@),
            equality_is_specified::<T>() ==> forall|j: int|
                0 < j < i ==> is_border(pattern@, j, #[trigger] table@[j] as int),
            equality_is_specified::<T>() ==> forall|j: int, b: int|
                0 < j < i && #[trigger] is_border(pattern@, j, b) ==> b <= #[trigger] table@[j],
        decreases m - i,
    {
        k = table[i - 1];
        proof {
            if equality_is_specified::<T>() {
                assert forall|b: int| #[trigger] is_border(pattern@, i as int, b) && b >= 1 implies
                    b
                    - 1 <= k by {
                    lemma_border_shortened(pattern@, i as int, b);
                    if i > 1 {
                        assert(is_border(pattern@, i - 1, b - 1));
                    }
                }
            }
        }
        while k >= 0
            invariant
                1 <= i < m,
                m == pattern@.len(),
                table@.len() == i,
                in_range(table@),
                -1 <= k < i - 1 || (k == -1),
                equality_is_specified::<T>() ==> forall|j: int|
                    0 < j < i ==> is_border(pattern@, j, #[trigger] table@[j] as int),
                equality_is_specified::<T>() ==> forall|j: int, b: int|
                    0 < j < i && #[trigger] is_border(pattern@, j, b) ==> b <= #[trigger] table@[j],
                equality_is_specified::<T>() && k >= 0 ==> is_border(pattern@, i - 1, k as int),
                equality_is_specified::<T>() ==> forall|b: int| #[trigger]
                    is_border(pattern@, i as int, b) && b >= 1 ==> b - 1 <= k,
            ensures
                -1 <= k < i - 1 || (k == -1),
                equality_is_specified::<T>() && k >= 0 ==> is_border(pattern@, i - 1, k as int)
                    && pattern@[k as int] == pattern@[i - 1],
                equality_is_specified::<T>() ==> forall|b: int| #[trigger]
                    is_border(pattern@, i as int, b) && b >= 1 ==> b - 1 <= k,
            decreases k + 1,
        {
            if same(&pattern[k as usize], &pattern[i - 1]) {
                break ;
            }
            proof {
                if equality_is_specified::<T>() {
                    let next = table@[k as int] as int;
                    if k > 0 {
                        assert(is_border(pattern@, k as int, next));
                        lemma_border_of_border(pattern@, i - 1, k as int, next);
                    }
                    assert forall|b: int| #[trigger] is_border(pattern@, i as int, b) && b
                        >= 1 implies b - 1 <= next by {
                        lemma_border_shortened(pattern@, i as int, b);
                        assert(b - 1 <= k);
                        if b - 1 == k {
                            assert(pattern@[k as int] == pattern@[i - 1]);
                        } else if k > 0 {
                            lemma_border_within(pattern@, i - 1, k as int, b - 1);
                            assert(is_border(pattern@, k as int, b - 1));
                        }
                    }
                }
            }
            k = table[k as usize];
        }
        proof {
            if equality_is_specified::<T>() {
                let len = i as int;
                let b = k + 1;
                assert(is_border(pattern@, len, b)) by {
                    assert forall|t: int| 0 <= t < b implies pattern@[t] == #[trigger] pattern@[len
                        - b + t] by {
                        if t < k {
                            assert(pattern@[t] == pattern@[(len - 1) - k + t]);
                        }
                    }
                }
                assert forall|c: int| #[trigger] is_border(pattern@, len, c) implies c <= b by {
                    if c >= 1 {
                        assert(c - 1 <= k);
                    }
                }
            }
        }
        table.push(k + 1);
        i += 1;
    }
    table
}

/// The first position at which `pattern` occurs in `target`.
pub fn find_first<T: PartialEq>(target: &[T], pattern: &[T]) -> (found: Option<usize>)
    requires
        pattern@.len() > 0 || target@.len() == 0,
        pattern@.len() <= isize::MAX,
    ensures
        found is Some ==> found->0 + pattern@.len() <= target@.len(),
        pattern@.len() == 0 ==> found is None,
        equality_is_specified::<T>() && pattern@.len() > 0 ==> is_first_occurrence(
            target@,
            pattern@,
            found,
        ),
{
    let table = build_table(pattern);
    find_first_with_table(target, pattern, table.as_slice())
}

/// The first position at which `pattern` occurs in `target`, found with the
/// help of the failure table of `pattern`.
pub fn find_first_with_table<T: PartialEq>(target: &[T], pattern: &[T], table: &[isize]) -> (found:
    Option<usize>)
    requires
        pattern@.len() > 0 || target@.len() == 0,
        pattern@.len() <= isize::MAX,
        table@.len() >= pattern@.len(),
        in_range(table@),
    ensures
        found is Some ==> found->0 + pattern@.len() <= target@.len(),
        pattern@.len() == 0 ==> found is None,
        equality_is_specified::<T>() && pattern@.len() > 0 && is_failure_table(pattern@, table@)
            ==> is_first_occurrence(target@, pattern@, found),
{
    let n = target.len();
    let m = pattern.len() as isize;
    let mut i: usize = 0;
    let mut k: isize = 0;
    let ghost exact = equality_is_specified::<T>() && pattern@.len() > 0 && is_failure_table(
        pattern@,
        table@,
    );
    while i < n
        invariant
            i <= n,
            n == target@.len(),
            m == pattern@.len(),
            n > 0 ==> m > 0 && -1 <= k < m,
            k <= i,
            table@.len() >= pattern@.len(),
            in_range(table@),
            exact == (equality_is_specified::<T>() && pattern@.len() > 0 && is_failure_table(
                pattern@,
                table@,
            )),
            exact ==> forall|t: int| 0 <= t < k ==> #[trigger] target@[i - k + t] == pattern@[t],
            exact ==> forall|j: int| 0 <= j < i - k ==> !occurs_at(target@, pattern@, j),
        decreases 2 * (n - i) + k + 1,
    {
        if k == -1 {
            i += 1;
            k = 0;
        } else if same(&target[i], &pattern[k as usize]) {
            i += 1;
            k += 1;
            proof {
                if exact {
                    assert forall|t: int| 0 <= t < k implies #[trigger] target@[i - k + t]
                        == pattern@[t] by {
                        if t < k - 1 {
                            assert(target@[(i - 1) - (k - 1) + t] == pattern@[t]);
                        }
                    }
                }
            }
            if k == m {
                proof {
                    if exact {
                        assert(occurs_at(target@, pattern@, i - m));
                    }
                }
                return Some(i - m as usize);
            }
        } else {
            proof {
                if exact {
                    let next = table@[k as int] as int;
                    assert(!occurs_at(target@, pattern@, i - k)) by {
                        if occurs_at(target@, pattern@, i - k) {
                            assert(target@[(i - k) + k] == pattern@[k as int]);
                        }
                    }
                    assert forall|j: int| 0 <= j < i - next implies !occurs_at(
                        target@,
                        pattern@,
                        j,
                    ) by {
                        if i - k < j && occurs_at(target@, pattern@, j) {
                            let b = i - j;
                            assert(is_border(pattern@, k as int, b)) by {
                                assert forall|t: int| 0 <= t < b implies pattern@[t]
                                    == #[trigger] pattern@[k - b + t] by {
                                    assert(target@[j + t] == pattern@[t]);
                                    assert(target@[i - k + (k - b + t)] == pattern@[k - b + t]);
                                }
                            }
                            assert(b <= table@[k as int]);
                        }
                    }
                    if next >= 0 {
                        assert(is_border(pattern@, k as int, next));
                        assert forall|t: int| 0 <= t < next implies #[trigger] target@[i - next
                            + t] == pattern@[t] by {
                            assert(pattern@[t] == pattern@[k - next + t]);
                            assert(target@[i - k + (k - next + t)] == pattern@[k - next + t]);
                        }
                    }
                }
            }
            k = table[k as usize];
        }
    }
    proof {
        if exact {
            assert forall|j: int| !occurs_at(target@, pattern@, j) by {
                if occurs_at(target@, pattern@, j) {
                    assert(j + m <= n);
                    assert(j >= i - k);
                }
            }
        }
    }
    None
}

/// All positions at which `pattern` occurs in `target`, in ascending order.
pub fn find_all<T: PartialEq>(target: &[T], pattern: &[T]) -> (found: Vec<usize>)
    requires
        pattern@.len() > 0 || target@.len() == 0,
        pattern@.len() <= isize::MAX,
    ensures
        pattern@.len() == 0 ==> found@.len() == 0,
        equality_is_specified::<T>() && pattern@.len() > 0 ==> are_all_occurrences(
            target@,
            pattern@,
            found@,
        ),
{
    let table = build_table(pattern);
    find_all_with_table(target, pattern, table.as_slice())
}

/// `found` lists, in ascending order, the positions at which `pattern`
/// occurs in `target`, and nothing else.
pub open spec fn are_all_occurrences<T>(target: Seq<T>, pattern: Seq<T>, found: Seq<usize>) -> bool {
    &&& forall|a: int, b: int| 0 <= a < b < found.len() ==>
        #[trigger] found[a] < #[trigger] found[b]
    &&& forall|a: int| 0 <= a < found.len() ==>
        occurs_at(target, pattern, #[trigger] found[a] as int)
    &&& forall|j: int| occurs_at(target, pattern, j) ==> exists|a: int|
        0 <= a < found.len() && #[trigger] found[a] == j
}

/// All positions at which `pattern` occurs in `target`, in ascending order,
/// found with the help of the failure table of `pattern`.
pub fn find_all_with_table<T: PartialEq>(target: &[T], pattern: &[T], table: &[isize]) -> (found:
    Vec<usize>)
    requires
        pattern@.len() > 0 || target@.len() == 0,
        pattern@.len() <= isize::MAX,
        table@.len() >= pattern@.len(),
        in_range(table@),
    ensures
        pattern@.len() == 0 ==> found@.len() == 0,
        equality_is_specified::<T>() && pattern@.len() > 0 && is_failure_table(pattern@, table@)
            ==> are_all_occurrences(target@, pattern@, found@),
{
    let mut results: Vec<usize> = Vec::new();
    let mut index;
    let ghost exact = equality_is_specified::<T>() && pattern@.len() > 0 && is_failure_table(
        pattern@,
        table@,
    );
    match find_first_with_table(target, pattern, table) {
        Some(result) => {
            results.push(result);
            index = result;
        },
        None => {
            return results;
        },
    }
    let n = target.len();
    let m = pattern.len();
    proof {
        if exact {
            assert forall|j: int| 0 <= j <= index && occurs_at(target@, pattern@, j) implies exists|
                a: int,
            | 0 <= a < results@.len() && #[trigger] results@[a] == j by {
                assert(results@[0] == index);
            }
        }
    }
    while index + m < n
        invariant
            n == target@.len(),
            m == pattern@.len(),
            m > 0,
            m <= isize::MAX,
            index + m <= n,
            table@.len() >= pattern@.len(),
            in_range(table@),
            exact == (equality_is_specified::<T>() && pattern@.len() > 0 && is_failure_table(
                pattern@,
                table@,
            )),
            results@.len() > 0,
            results@.last() == index,
            exact ==> forall|a: int, b: int|
                0 <= a < b < results@.len() ==> #[trigger] results@[a] < #[trigger] results@[b],
            exact ==> forall|a: int|
                0 <= a < results@.len() ==> occurs_at(
                    target@,
                    pattern@,
                    #[trigger] results@[a] as int,
                ),
            exact ==> forall|j: int|
                0 <= j <= index && occurs_at(target@, pattern@, j) ==> exists|a: int|
                    0 <= a < results@.len() && #[trigger] results@[a] == j,
        ensures
            exact ==> are_all_occurrences(target@, pattern@, results@),
        decreases n - index,
    {
        let next = index + 1;
        let rest = &target[next..n];
        match find_first_with_table(rest, pattern, table) {
            Some(result) => {
                proof {
                    if exact {
                        assert(rest@ == target@.subrange(next as int, n as int));
                        lemma_occurs_in_rest(target@, pattern@, next as int, result as int);
                        assert(occurs_at(target@, pattern@, next + result));
                        assert forall|j: int|
                            0 <= j <= next + result && occurs_at(target@, pattern@, j) implies
                                exists|
                            a: int,
                        |
                            0 <= a < results@.push((next + result) as usize).len()
                                && #[trigger] results@.push((next + result) as usize)[a] == j by {
                            if j <= index {
                                let a = choose|a: int|
                                    0 <= a < results@.len() && #[trigger] results@[a] == j;
                                assert(results@.push((next + result) as usize)[a] == j);
                            } else if j < next + result {
                                lemma_occurs_in_rest(target@, pattern@, next as int, j - next);
                                assert(occurs_at(rest@, pattern@, j - next));
                            } else {
                                assert(results@.push((next + result) as usize)[results@.len() as int]
                                    == j);
                            }
                        }
                    }
                }
                results.push(next + result);
                index = next + result;
            },
            None => {
                proof {
                    if exact {
                        assert(rest@ == target@.subrange(next as int, n as int));
                        assert forall|j: int| occurs_at(target@, pattern@, j) implies exists|a: int|
                            0 <= a < results@.len() && #[trigger] results@[a] == j by {
                            if j > index {
                                lemma_occurs_in_rest(target@, pattern@, next as int, j - next);
                                assert(occurs_at(rest@, pattern@, j - next));
                            }
                        }
                    }
                }
                break ;
            },
        }
    }
    proof {
        if exact && index + m >= n {
            assert forall|j: int| occurs_at(target@, pattern@, j) implies exists|a: int|
                0 <= a < results@.len() && #[trigger] results@[a] == j by {
                assert(j <= index);
            }
        }
    }
    results
}

/// An occurrence in what follows position `from` is an occurrence in the
/// whole, `from` positions further on, and the other way round.
pub proof fn lemma_occurs_in_rest<T>(target: Seq<T>, pattern: Seq<T>, from: int, j: int)
    requires
        0 <= from <= target.len(),
    ensures
        occurs_at(target.subrange(from, target.len() as int), pattern, j) <==> occurs_at(
            target,
            pattern,
            j + from,
        ) && j >= 0,
{
    let rest = target.subrange(from, target.len() as int);
    let at = j + from;
    if occurs_at(rest, pattern, j) {
        assert forall|t: int| 0 <= t < pattern.len() implies #[trigger] target[at + t]
            == pattern[t] by {
            assert(rest[j + t] == pattern[t]);
            assert(rest[j + t] == target[from + (j + t)]);
        }
    }
    if occurs_at(target, pattern, at) && j >= 0 {
        assert forall|t: int| 0 <= t < pattern.len() implies #[trigger] rest[j + t]
            == pattern[t] by {
            assert(target[at + t] == pattern[t]);
            assert(rest[j + t] == target[from + (j + t)]);
        }
    }
}

} // verus!
