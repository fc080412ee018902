//! Why consolidation keeps the roots few.
//!
//! Roots are linked only when they have the same number of children, so a
//! node with `d` children has one child with each of the numbers 0 to
//! `d - 1` of children, and its tree holds two to the power of `d` values. A
//! heap whose roots all differ in the number of their children therefore has
//! no more roots than its size has binary digits.

use super::arena::{at, installed, live, lone_entry, nil, shifted, Link, Nodes};
use super::extraction::{entry_without, lemma_unlink_root, promoted, roots_joined, without_root};
use super::forest::{
    distinct_degrees, ending_with, family, forest, lemma_ending_with, lemma_rotate,
    lemma_spliced_same, member_ok, rotated, spliced,
};
use super::insertion::{kids_with, roots_with};
use super::linking::{adopted, kids_adopted, lemma_adopt, ring_adopted};
use super::merging::{kids_side_by_side, lemma_side_by_side, roots_of_two, shifted_ring};
use vstd::arithmetic::power2::{lemma2_to64, lemma_pow2_strictly_increases, lemma_pow2_unfold, pow2};
use vstd::prelude::*;

verus! {

/// The numbers of children of the nodes in the slots that `s` lists.
pub open spec fn degrees_of<T>(nodes: Nodes<T>, s: Seq<usize>) -> Seq<nat> {
    Seq::new(s.len(), |k: int| nodes[s[k] as int]->0.degree as nat)
}

/// The sum of two to the power of each of `ds`.
pub open spec fn power_sum(ds: Seq<nat>) -> nat
    decreases ds.len(),
{
    if ds.len() == 0 {
        0
    } else {
        power_sum(ds.drop_last()) + pow2(ds.last())
    }
}

/// The number of values in the trees whose roots `s` lists, where every
/// tree is full: two to the power of the number of children of its root.
pub open spec fn weight<T>(nodes: Nodes<T>, s: Seq<usize>) -> nat {
    power_sum(degrees_of(nodes, s))
}

/// Every tree is full: the children of each node differ in the number of
/// their children, and `size` is the weight of the trees under `roots`.
pub open spec fn full_trees<T>(
    nodes: Nodes<T>,
    roots: Seq<usize>,
    kids: Seq<Seq<usize>>,
    size: int,
) -> bool {
    &&& forall|p: usize|
        live(nodes, p as int) ==> #[trigger] distinct_degrees(nodes, kids[p as int])
    &&& size == weight(nodes, roots)
}

/// The sum over one number is two to the power of that number.
pub proof fn lemma_power_sum_of_one(d: nat)
    ensures
        power_sum(seq![d]) == pow2(d),
{
    assert(seq![d].drop_last() =~= Seq::<nat>::empty());
    assert(power_sum(Seq::<nat>::empty()) == 0);
    assert(seq![d].last() == d);
}

/// The sum over two sequences, one behind the other, is the sum of the sums.
pub proof fn lemma_power_sum_concat(a: Seq<nat>, b: Seq<nat>)
    ensures
        power_sum(a + b) == power_sum(a) + power_sum(b),
    decreases b.len(),
{
    if b.len() == 0 {
        assert(a + b =~= a);
    } else {
        assert((a + b).drop_last() =~= a + b.drop_last());
        lemma_power_sum_concat(a, b.drop_last());
    }
}

/// The sum over a sequence is the sum over the sequence without one of its
/// elements and two to the power of that element.
pub proof fn lemma_power_sum_remove(ds: Seq<nat>, i: int)
    requires
        0 <= i < ds.len(),
    ensures
        power_sum(ds) == power_sum(ds.remove(i)) + pow2(ds[i]),
{
    let front = ds.subrange(0, i);
    let back = ds.subrange(i + 1, ds.len() as int);
    assert(ds =~= front + seq![ds[i]] + back);
    assert(ds.remove(i) =~= front + back);
    lemma_power_sum_concat(front + seq![ds[i]], back);
    lemma_power_sum_concat(front, seq![ds[i]]);
    lemma_power_sum_concat(front, back);
    lemma_power_sum_of_one(ds[i]);
}

/// Distinct numbers below `n` are at most `n` many, and if they are `n`
/// many, `n - 1` is among them.
pub proof fn lemma_distinct_below(ds: Seq<nat>, n: nat)
    requires
        ds.no_duplicates(),
        forall|k: int| 0 <= k < ds.len() ==> #[trigger] ds[k] < n,
    ensures
        ds.len() <= n,
        ds.len() == n && n > 0 ==> ds.contains((n - 1) as nat),
    decreases n,
{
    if n == 0 {
        if ds.len() > 0 {
            assert(ds[0] < n);
        }
    } else {
        let top = (n - 1) as nat;
        if ds.contains(top) {
            let i = ds.index_of(top);
            let rest = ds.remove(i);
            lemma_removed_distinct(ds, i);
            assert forall|k: int| 0 <= k < rest.len() implies #[trigger] rest[k] < top by {
                if k < i {
                    assert(rest[k] == ds[k]);
                } else {
                    assert(rest[k] == ds[k + 1]);
                }
            }
            lemma_distinct_below(rest, top);
        } else {
            assert forall|k: int| 0 <= k < ds.len() implies #[trigger] ds[k] < top by {
                assert(ds.contains(ds[k]));
            }
            lemma_distinct_below(ds, top);
        }
    }
}

/// A sequence of distinct numbers without one of them is a sequence of
/// distinct numbers that does not hold the one.
pub proof fn lemma_removed_distinct(ds: Seq<nat>, i: int)
    requires
        ds.no_duplicates(),
        0 <= i < ds.len(),
    ensures
        ds.remove(i).no_duplicates(),
        !ds.remove(i).contains(ds[i]),
{
    let rest = ds.remove(i);
    assert forall|j: int, k: int| 0 <= j < rest.len() && 0 <= k < rest.len() && j != k implies rest[j]
        != rest[k] by {
        let j2 = if j < i {
            j
        } else {
            j + 1
        };
        let k2 = if k < i {
            k
        } else {
            k + 1
        };
        assert(rest[j] == ds[j2] && rest[k] == ds[k2]);
    }
    if rest.contains(ds[i]) {
        let k = rest.index_of(ds[i]);
        let k2 = if k < i {
            k
        } else {
            k + 1
        };
        assert(rest[k] == ds[k2]);
    }
}

/// The numbers from 0 to `d - 1`, in any order, sum up to one less than two
/// to the power of `d`.
pub proof fn lemma_power_sum_full(ds: Seq<nat>, d: nat)
    requires
        ds.no_duplicates(),
        ds.len() == d,
        forall|k: int| 0 <= k < ds.len() ==> #[trigger] ds[k] < d,
    ensures
        power_sum(ds) + 1 == pow2(d),
    decreases d,
{
    if d == 0 {
        lemma2_to64();
    } else {
        let top = (d - 1) as nat;
        lemma_distinct_below(ds, d);
        let i = ds.index_of(top);
        let rest = ds.remove(i);
        lemma_removed_distinct(ds, i);
        assert forall|k: int| 0 <= k < rest.len() implies #[trigger] rest[k] < top by {
            if k < i {
                assert(rest[k] == ds[k]);
            } else {
                assert(rest[k] == ds[k + 1]);
            }
            assert(rest.contains(rest[k]));
        }
        lemma_power_sum_full(rest, top);
        lemma_power_sum_remove(ds, i);
        lemma_pow2_unfold(d);
    }
}

/// Distinct numbers sum up to at least one less than two to the power of
/// how many they are.
pub proof fn lemma_power_sum_least(ds: Seq<nat>, n: nat)
    requires
        ds.no_duplicates(),
        forall|k: int| 0 <= k < ds.len() ==> #[trigger] ds[k] < n,
    ensures
        power_sum(ds) + 1 >= pow2(ds.len()),
        ds.len() <= n,
    decreases n,
{
    lemma_distinct_below(ds, n);
    if n == 0 {
        lemma2_to64();
    } else {
        let top = (n - 1) as nat;
        if ds.contains(top) {
            let i = ds.index_of(top);
            let rest = ds.remove(i);
            lemma_removed_distinct(ds, i);
            assert forall|k: int| 0 <= k < rest.len() implies #[trigger] rest[k] < top by {
                if k < i {
                    assert(rest[k] == ds[k]);
                } else {
                    assert(rest[k] == ds[k + 1]);
                }
                assert(rest.contains(rest[k]));
            }
            lemma_power_sum_least(rest, top);
            lemma_power_sum_remove(ds, i);
            lemma_pow2_unfold(ds.len());
            if rest.len() < top {
                lemma_pow2_strictly_increases(rest.len(), top);
            }
        } else {
            assert forall|k: int| 0 <= k < ds.len() implies #[trigger] ds[k] < top by {
                assert(ds.contains(ds[k]));
            }
            lemma_power_sum_least(ds, top);
        }
    }
}

/// Nodes that keep the number of their children keep their weight.
pub proof fn lemma_weight_kept<T>(before: Nodes<T>, after: Nodes<T>, s: Seq<usize>)
    requires
        forall|k: int|
            0 <= k < s.len() ==> (#[trigger] after[s[k] as int])->0.degree
                == before[s[k] as int]->0.degree,
    ensures
        weight(after, s) == weight(before, s),
        distinct_degrees(before, s) ==> distinct_degrees(after, s),
{
    assert(degrees_of(after, s) =~= degrees_of(before, s));
    if distinct_degrees(before, s) {
        assert forall|j: int, k: int| 0 <= j < s.len() && 0 <= k < s.len() && j != k implies after[#[trigger] s[j] as int]->0.degree
            != after[#[trigger] s[k] as int]->0.degree by {
            assert(after[s[j] as int]->0.degree == before[s[j] as int]->0.degree);
            assert(after[s[k] as int]->0.degree == before[s[k] as int]->0.degree);
        }
    }
}

/// The weight of two lists, one behind the other, is the sum of their
/// weights.
pub proof fn lemma_weight_concat<T>(nodes: Nodes<T>, a: Seq<usize>, b: Seq<usize>)
    ensures
        weight(nodes, a + b) == weight(nodes, a) + weight(nodes, b),
{
    assert(degrees_of(nodes, a + b) =~= degrees_of(nodes, a) + degrees_of(nodes, b));
    lemma_power_sum_concat(degrees_of(nodes, a), degrees_of(nodes, b));
}

/// A ring read from another position has the same weight, and its members
/// differ in degree as before.
pub proof fn lemma_weight_rotated<T>(nodes: Nodes<T>, s: Seq<usize>, k: int)
    requires
        0 <= k <= s.len(),
    ensures
        weight(nodes, rotated(s, k)) == weight(nodes, s),
        distinct_degrees(nodes, s) ==> distinct_degrees(nodes, rotated(s, k)),
{
    let front = s.subrange(0, k);
    let back = s.subrange(k, s.len() as int);
    assert(s =~= front + back);
    lemma_weight_concat(nodes, front, back);
    lemma_weight_concat(nodes, back, front);
    let r = rotated(s, k);
    let n = s.len() as int;
    if distinct_degrees(nodes, s) {
        assert forall|i: int, j: int| 0 <= i < n && 0 <= j < n && i != j implies nodes[#[trigger] r[i] as int]->0.degree
            != nodes[#[trigger] r[j] as int]->0.degree by {
            let a = if i + k < n {
                i + k
            } else {
                i + k - n
            };
            let b = if j + k < n {
                j + k
            } else {
                j + k - n
            };
            assert(r[i] == s[a]);
            assert(r[j] == s[b]);
        }
    }
}

/// The weight of a list is the weight of the list without its last member
/// and the weight of that member.
pub proof fn lemma_weight_last<T>(nodes: Nodes<T>, s: Seq<usize>)
    requires
        s.len() > 0,
    ensures
        weight(nodes, s) == weight(nodes, s.drop_last()) + pow2(
            nodes[s.last() as int]->0.degree as nat,
        ),
{
    assert(degrees_of(nodes, s).drop_last() =~= degrees_of(nodes, s.drop_last()));
}

/// The children of a node in a forest of full trees weigh one less than
/// the tree of the node.
pub proof fn lemma_children_weight<T>(nodes: Nodes<T>, p: usize, c: Seq<usize>)
    requires
        family(nodes, p, c),
        distinct_degrees(nodes, c),
    ensures
        weight(nodes, c) + 1 == pow2(nodes[p as int]->0.degree as nat),
{
    let ds = degrees_of(nodes, c);
    assert forall|j: int, k: int| 0 <= j < ds.len() && 0 <= k < ds.len() && j != k implies ds[j]
        != ds[k] by {
        assert(nodes[c[j] as int]->0.degree != nodes[c[k] as int]->0.degree);
    }
    assert forall|k: int| 0 <= k < ds.len() implies #[trigger] ds[k] < c.len() by {
        assert(nodes[c[k] as int]->0.degree < c.len());
    }
    lemma_power_sum_full(ds, c.len());
}

/// **Few roots.** A heap of full trees whose roots all differ in degree has
/// no more roots than its size has binary digits: two to the power of the
/// number of its roots is at most its size plus one.
pub proof fn lemma_count_of_roots<T>(nodes: Nodes<T>, roots: Seq<usize>, size: int)
    requires
        distinct_degrees(nodes, roots),
        size == weight(nodes, roots),
    ensures
        pow2(roots.len()) <= size + 1,
{
    let ds = degrees_of(nodes, roots);
    assert forall|j: int, k: int| 0 <= j < ds.len() && 0 <= k < ds.len() && j != k implies ds[j]
        != ds[k] by {
        assert(nodes[roots[j] as int]->0.degree != nodes[roots[k] as int]->0.degree);
    }
    lemma_power_sum_least(ds, (usize::MAX + 1) as nat);
}

/// No tree among full trees weighs more than all of them together.
pub proof fn lemma_tree_within_weight<T>(nodes: Nodes<T>, s: Seq<usize>, k: int)
    requires
        0 <= k < s.len(),
    ensures
        pow2(nodes[s[k] as int]->0.degree as nat) <= weight(nodes, s),
{
    lemma_power_sum_remove(degrees_of(nodes, s), k);
}

/// A pushed value is one more full tree.
pub proof fn lemma_insert_weight<T: PartialOrd>(
    nodes: Nodes<T>,
    roots: Seq<usize>,
    kids: Seq<Seq<usize>>,
    min: Link,
    i: usize,
    value: T,
    size: int,
)
    requires
        forest(nodes, roots, kids),
        full_trees(nodes, roots, kids, size),
        !live(nodes, i as int),
        i <= nodes.len(),
        i < usize::MAX,
        min.entry is None <==> roots.len() == 0,
        min.entry is Some ==> roots.contains(min.entry->0),
    ensures
        full_trees(
            spliced(installed(nodes, i as int, lone_entry(value, i)), min, at(i)),
            roots_with(roots, min, i),
            kids_with(kids, i),
            size + 1,
        ),
{
    let fresh = installed(nodes, i as int, lone_entry(value, i));
    let after = spliced(fresh, min, at(i));
    let roots2 = roots_with(roots, min, i);
    let kids2 = kids_with(kids, i);
    lemma_spliced_same(fresh, min, at(i));
    lemma2_to64();
    assert forall|j: int| live(nodes, j) implies (#[trigger] after[j])->0.degree
        == nodes[j]->0.degree by {
        assert(fresh[j] == nodes[j]);
    }
    assert(after[i as int]->0.degree == 0);
    assert forall|k: int| 0 <= k < roots.len() implies live(nodes, #[trigger] roots[k] as int) by {
        assert(member_ok(nodes, roots, nil(), k));
    }
    match min.entry {
        Some(m) => {
            let turned = ending_with(roots, m);
            lemma_weight_rotated(nodes, roots, roots.index_of(m) + 1);
            lemma_ending_with(nodes, roots, nil(), m);
            assert forall|k: int| 0 <= k < turned.len() implies (#[trigger] after[turned[k] as int])->0.degree
                == nodes[turned[k] as int]->0.degree by {
                assert(member_ok(nodes, turned, nil(), k));
            }
            lemma_weight_kept(nodes, after, turned);
            assert(roots2 =~= turned + seq![i]);
            lemma_weight_concat(after, turned, seq![i]);
            assert(degrees_of(after, seq![i]) =~= seq![0nat]);
            lemma_power_sum_of_one(0);
        },
        None => {
            assert(roots =~= Seq::<usize>::empty());
            assert(degrees_of(nodes, roots) =~= Seq::<nat>::empty());
            assert(degrees_of(after, roots2) =~= seq![0nat]);
            lemma_power_sum_of_one(0);
        },
    }
    assert forall|p: usize| live(after, p as int) implies #[trigger] distinct_degrees(
        after,
        kids2[p as int],
    ) by {
        if p != i {
            let c = kids[p as int];
            assert(live(nodes, p as int));
            assert(family(nodes, p, c));
            assert(distinct_degrees(nodes, c));
            assert forall|k: int| 0 <= k < c.len() implies (#[trigger] after[c[k] as int])->0.degree
                == nodes[c[k] as int]->0.degree by {
                assert(member_ok(nodes, c, at(p), k));
            }
            lemma_weight_kept(nodes, after, c);
        }
    }
}

/// A heap without one of its roots, whose children have become roots, is
/// a heap of full trees with one value less.
pub proof fn lemma_promote_weight<T: PartialOrd>(
    nodes: Nodes<T>,
    roots: Seq<usize>,
    kids: Seq<Seq<usize>>,
    m: usize,
    c: Seq<usize>,
    size: int,
)
    requires
        forest(nodes, roots, kids),
        full_trees(nodes, roots, kids, size),
        roots.contains(m),
        exists|k: int| 0 <= k <= kids[m as int].len() && c == rotated(kids[m as int], k),
    ensures
        full_trees(
            promoted(
                without_root(nodes, roots, m),
                ending_with(roots, m).drop_last(),
                c,
                m,
            ),
            roots_joined(ending_with(roots, m).drop_last(), c),
            kids,
            size - 1,
        ),
{
    let n1 = without_root(nodes, roots, m);
    let turned = ending_with(roots, m);
    let rest = turned.drop_last();
    let after = promoted(n1, rest, c, m);
    let roots2 = roots_joined(rest, c);
    let mine = kids[m as int];
    let k = choose|k: int| 0 <= k <= mine.len() && c == rotated(mine, k);
    lemma_unlink_root(nodes, roots, kids, m);
    lemma_ending_with(nodes, roots, nil(), m);
    assert(family(nodes, m, mine));
    assert(family(n1, m, mine));
    assert(distinct_degrees(nodes, mine));
    lemma_rotate(n1, mine, at(m), k);
    if c.len() > 0 {
        assert(member_ok(n1, mine, at(m), 0));
    }
    // the weights before
    lemma_weight_rotated(nodes, roots, roots.index_of(m) + 1);
    lemma_weight_last(nodes, turned);
    lemma_children_weight(nodes, m, mine);
    lemma_weight_rotated(nodes, mine, k);
    // the numbers of children stay
    assert forall|j: int| live(nodes, j) && j != m implies (#[trigger] after[j]) is Some
        && after[j]->0.degree == nodes[j]->0.degree by {
        assert(n1[j] is Some);
        lemma_promote_degrees(n1, rest, c, m, j);
    }
    assert forall|t: int| 0 <= t < rest.len() implies live(nodes, #[trigger] rest[t] as int)
        && rest[t] != m by {
        assert(member_ok(nodes, turned, nil(), t));
        assert(turned[t] != turned[turned.len() - 1]);
    }
    assert forall|t: int| 0 <= t < c.len() implies live(nodes, #[trigger] c[t] as int) && c[t]
        != m by {
        assert(member_ok(n1, c, at(m), t));
    }
    lemma_weight_kept(nodes, after, rest);
    lemma_weight_kept(nodes, after, c);
    if rest.len() > 0 && c.len() > 0 {
        lemma_weight_rotated(after, rest, 1);
        lemma_weight_rotated(after, c, 1);
        lemma_weight_concat(after, rotated(rest, 1), rotated(c, 1));
    } else if rest.len() > 0 {
        assert(degrees_of(nodes, c) =~= Seq::<nat>::empty());
    } else {
        assert(degrees_of(nodes, rest) =~= Seq::<nat>::empty());
    }
    assert forall|p: usize| live(after, p as int) implies #[trigger] distinct_degrees(
        after,
        kids[p as int],
    ) by {
        let f = kids[p as int];
        assert(p != m);
        assert(live(nodes, p as int));
        assert(family(nodes, p, f));
        assert(distinct_degrees(nodes, f));
        assert forall|t: int| 0 <= t < f.len() implies (#[trigger] after[f[t] as int])->0.degree
            == nodes[f[t] as int]->0.degree by {
            assert(member_ok(nodes, f, at(p), t));
            assert(f[t] != m) by {
                assert(member_ok(nodes, roots, nil(), roots.index_of(m)));
            }
        }
        lemma_weight_kept(nodes, after, f);
    }
}

/// Making the children of a removed root roots changes the number of
/// children of no node that stays.
pub proof fn lemma_promote_degrees<T>(
    nodes: Nodes<T>,
    rest: Seq<usize>,
    c: Seq<usize>,
    m: usize,
    j: int,
)
    requires
        0 <= j < nodes.len(),
        nodes[j] is Some,
        j != m,
        0 <= m < nodes.len(),
    ensures
        promoted(nodes, rest, c, m)[j] is Some,
        promoted(nodes, rest, c, m)[j]->0.degree == nodes[j]->0.degree,
{
    let child = nodes[m as int]->0.child;
    let orphans = super::forest::orphaned(nodes, c);
    lemma_spliced_same(orphans, entry_without(rest), child);
}

/// The children of a root that has adopted a root with as many children as
/// it had differ in degree: those that it had have fewer children each.
pub proof fn lemma_adopted_children<T>(
    nodes: Nodes<T>,
    after: Nodes<T>,
    c: Seq<usize>,
    w: usize,
    l: usize,
)
    requires
        family(nodes, w, c),
        distinct_degrees(nodes, c),
        live(nodes, l as int),
        w != l,
        nodes[l as int]->0.parent == nil(),
        nodes[l as int]->0.degree == nodes[w as int]->0.degree,
        forall|j: int|
            live(nodes, j) && j != w ==> (#[trigger] after[j])->0.degree == nodes[j]->0.degree,
    ensures
        distinct_degrees(after, ring_adopted(c, nodes[w as int]->0.child, l)),
{
    let ring2 = ring_adopted(c, nodes[w as int]->0.child, l);
    let d = nodes[w as int]->0.degree;
    assert forall|t: int| 0 <= t < c.len() implies (#[trigger] after[c[t] as int])->0.degree
        == nodes[c[t] as int]->0.degree && nodes[c[t] as int]->0.degree < d && c[t] != l by {
        assert(member_ok(nodes, c, at(w), t));
    }
    lemma_weight_kept(nodes, after, c);
    assert(after[l as int]->0.degree == d);
    if c.len() > 0 {
        let x = nodes[w as int]->0.child.entry->0;
        lemma_weight_rotated(after, c, c.index_of(x) + 1);
        let a = ending_with(c, x);
        lemma_ending_with(nodes, c, at(w), x);
        assert(distinct_degrees(after, a));
        assert(ring2 =~= a.push(l));
        assert forall|i: int, j: int|
            0 <= i < ring2.len() && 0 <= j < ring2.len() && i != j implies after[#[trigger] ring2[i] as int]->0.degree
            != after[#[trigger] ring2[j] as int]->0.degree by {
            if i < a.len() {
                assert(a.contains(a[i]));
                assert(c[c.index_of(a[i])] == a[i]);
            }
            if j < a.len() {
                assert(a.contains(a[j]));
                assert(c[c.index_of(a[j])] == a[j]);
            }
            if i < a.len() && j < a.len() {
                assert(after[a[i] as int]->0.degree != after[a[j] as int]->0.degree);
            }
        }
    }
}

/// A root that adopts a root with as many children as it has is a full
/// tree again, and the heap weighs what it weighed.
pub proof fn lemma_adopt_weight<T: PartialOrd>(
    nodes: Nodes<T>,
    roots: Seq<usize>,
    kids: Seq<Seq<usize>>,
    w: usize,
    l: usize,
    entry: Link,
    size: int,
)
    requires
        forest(nodes, roots, kids),
        full_trees(nodes, roots, kids, size),
        roots.contains(w),
        roots.contains(l),
        w != l,
        nodes[l as int]->0.degree == nodes[w as int]->0.degree,
        nodes[w as int]->0.degree < usize::MAX,
        entry == at(l) || (kids[w as int].len() > 0 && entry == nodes[w as int]->0.child),
    ensures
        full_trees(
            adopted(nodes, w, l, entry),
            ending_with(roots, l).drop_last(),
            kids_adopted(nodes, kids, w, l),
            size,
        ),
{
    let after = adopted(nodes, w, l, entry);
    let turned = ending_with(roots, l);
    let roots2 = turned.drop_last();
    let kids2 = kids_adopted(nodes, kids, w, l);
    let d = nodes[w as int]->0.degree as nat;
    lemma_adopt(nodes, roots, kids, w, l, entry);
    lemma_ending_with(nodes, roots, nil(), l);
    assert(member_ok(nodes, roots, nil(), roots.index_of(w)));
    assert(member_ok(nodes, roots, nil(), roots.index_of(l)));
    // the roots: one tree of weight 2^d less, one of weight 2^d more
    lemma_weight_rotated(nodes, roots, roots.index_of(l) + 1);
    lemma_weight_last(nodes, turned);
    assert(roots2.contains(w));
    let iw = roots2.index_of(w);
    let before = degrees_of(nodes, roots2);
    let now = degrees_of(after, roots2);
    lemma_power_sum_remove(before, iw);
    lemma_power_sum_remove(now, iw);
    assert(before.remove(iw) =~= now.remove(iw)) by {
        assert forall|t: int| 0 <= t < roots2.len() && t != iw implies now[t] == before[t] by {
            assert(member_ok(nodes, turned, nil(), t));
            assert(roots2[t] != roots2[iw]) by {
                assert(turned[t] != turned[iw]);
            }
        }
    }
    lemma_pow2_unfold(d + 1);
    // the children of the winner
    let c = kids[w as int];
    assert(family(nodes, w, c));
    assert(distinct_degrees(nodes, c));
    assert forall|p: usize| live(after, p as int) implies #[trigger] distinct_degrees(
        after,
        kids2[p as int],
    ) by {
        assert(live(nodes, p as int));
        if p == w {
            lemma_adopted_children(nodes, after, c, w, l);
        } else {
            let f = kids[p as int];
            assert(family(nodes, p, f));
            assert(distinct_degrees(nodes, f));
            assert forall|t: int| 0 <= t < f.len() implies (#[trigger] after[f[t] as int])->0.degree
                == nodes[f[t] as int]->0.degree by {
                assert(member_ok(nodes, f, at(p), t));
            }
            lemma_weight_kept(nodes, after, f);
        }
    }
}

/// Two heaps of full trees, merged, are a heap of full trees that weighs
/// what the two weighed.
pub proof fn lemma_merge_weight<T: PartialOrd>(
    nx: Nodes<T>,
    rx: Seq<usize>,
    kx: Seq<Seq<usize>>,
    x: Link,
    sx: int,
    ny: Nodes<T>,
    ry: Seq<usize>,
    ky: Seq<Seq<usize>>,
    y: Link,
    sy: int,
)
    requires
        forest(nx, rx, kx),
        forest(ny, ry, ky),
        full_trees(nx, rx, kx, sx),
        full_trees(ny, ry, ky, sy),
        nx.len() + ny.len() <= usize::MAX,
        x.entry is None <==> rx.len() == 0,
        x.entry is Some ==> rx.contains(x.entry->0),
        y.entry is None <==> ry.len() == 0,
        y.entry is Some ==> shifted_ring(ry, nx.len() as int).contains(y.entry->0),
    ensures
        full_trees(
            spliced(nx + shifted(ny, nx.len() as int), x, y),
            roots_of_two(rx, x, shifted_ring(ry, nx.len() as int), y),
            kids_side_by_side(kx, ky, nx.len() as int),
            sx + sy,
        ),
{
    let offset = nx.len() as int;
    let both = nx + shifted(ny, offset);
    let after = spliced(both, x, y);
    let ry2 = shifted_ring(ry, offset);
    let roots = roots_of_two(rx, x, ry2, y);
    let kids = kids_side_by_side(kx, ky, offset);
    lemma_side_by_side(nx, rx, kx, ny, ry, ky);
    lemma_spliced_same(both, x, y);
    assert forall|t: int| 0 <= t < rx.len() implies (#[trigger] after[rx[t] as int])->0.degree
        == nx[rx[t] as int]->0.degree by {
        assert(member_ok(nx, rx, nil(), t));
        assert(both[rx[t] as int] == nx[rx[t] as int]);
    }
    assert(degrees_of(after, rx) =~= degrees_of(nx, rx));
    assert(degrees_of(after, ry2) =~= degrees_of(ny, ry)) by {
        assert forall|t: int| 0 <= t < ry.len() implies after[ry2[t] as int]->0.degree
            == ny[ry[t] as int]->0.degree by {
            assert(member_ok(ny, ry, nil(), t));
            assert(both[ry[t] + offset] == shifted(ny, offset)[ry[t] as int]);
        }
    }
    if x.entry is Some && y.entry is Some {
        lemma_weight_rotated(after, rx, rx.index_of(x.entry->0) + 1);
        lemma_weight_rotated(after, ry2, ry2.index_of(y.entry->0) + 1);
        lemma_weight_concat(after, ending_with(rx, x.entry->0), ending_with(ry2, y.entry->0));
    } else if x.entry is Some {
        assert(degrees_of(ny, ry) =~= Seq::<nat>::empty());
    } else {
        assert(degrees_of(nx, rx) =~= Seq::<nat>::empty());
    }
    assert forall|p: usize| live(after, p as int) implies #[trigger] distinct_degrees(
        after,
        kids[p as int],
    ) by {
        assert(both[p as int] is Some);
        if p < offset {
            let f = kx[p as int];
            assert(live(nx, p as int));
            assert(family(nx, p, f));
            assert(distinct_degrees(nx, f));
            assert forall|t: int| 0 <= t < f.len() implies (#[trigger] after[f[t] as int])->0.degree
                == nx[f[t] as int]->0.degree by {
                assert(member_ok(nx, f, at(p), t));
                assert(both[f[t] as int] == nx[f[t] as int]);
            }
            lemma_weight_kept(nx, after, f);
        } else {
            let q = (p - offset) as usize;
            let f = ky[q as int];
            let f2 = shifted_ring(f, offset);
            assert(both[p as int] == shifted(ny, offset)[q as int]);
            assert(live(ny, q as int));
            assert(family(ny, q, f));
            assert(distinct_degrees(ny, f));
            assert(kids[p as int] == f2);
            assert forall|i: int, j: int| 0 <= i < f2.len() && 0 <= j < f2.len() && i != j implies after[#[trigger] f2[i] as int]->0.degree
                != after[#[trigger] f2[j] as int]->0.degree by {
                assert(member_ok(ny, f, at(q), i));
                assert(member_ok(ny, f, at(q), j));
                assert(both[f[i] + offset] == shifted(ny, offset)[f[i] as int]);
                assert(both[f[j] + offset] == shifted(ny, offset)[f[j] as int]);
                assert(ny[f[i] as int]->0.degree != ny[f[j] as int]->0.degree);
            }
        }
    }
}

} // verus!
