//! Why a pushed value is one more root of the forest.

use super::arena::{at, installed, live, lone_entry, nil, Link, Nodes};
use super::forest::{
    above_parent, ending_with, family, forest, heap_ordered, least_root, lemma_ending_with,
    lemma_families_kept, lemma_ring_frame, lemma_ring_of_one, lemma_splice, lemma_spliced_same,
    lemma_values_push, lemma_values_same, lemma_values_update, member_ok, placed, ring, spliced,
    values,
};
use crate::order::{le, lemma_le_reflexive, lemma_le_transitive, lt, strict_weak_order};
use vstd::prelude::*;

verus! {

/// The rings of children after a node has been put into slot `i`.
pub open spec fn kids_with(kids: Seq<Seq<usize>>, i: usize) -> Seq<Seq<usize>> {
    if i < kids.len() {
        kids.update(i as int, Seq::empty())
    } else {
        kids.push(Seq::empty())
    }
}

/// The way into the root ring after a node with `value` in slot `i` has
/// joined it: the old one if its value is strictly lower, else the new node.
pub open spec fn min_with<T: PartialOrd>(nodes: Nodes<T>, min: Link, i: usize, value: T) -> Link {
    match min.entry {
        Some(m) => if lt(nodes[m as int]->0.value, value) {
            min
        } else {
            at(i)
        },
        None => at(i),
    }
}

/// The root ring after the node in slot `i` has been spliced in behind `min`.
pub open spec fn roots_with(roots: Seq<usize>, min: Link, i: usize) -> Seq<usize> {
    match min.entry {
        Some(m) => ending_with(roots, m).push(i),
        None => seq![i],
    }
}

/// A new node, spliced into the root ring behind `min`, is one more root of
/// the forest, and its value one more value.
pub proof fn lemma_insert_root<T: PartialOrd>(
    nodes: Nodes<T>,
    roots: Seq<usize>,
    kids: Seq<Seq<usize>>,
    min: Link,
    i: usize,
    value: T,
)
    requires
        forest(nodes, roots, kids),
        !live(nodes, i as int),
        i <= nodes.len(),
        i < usize::MAX,
        min.entry is None <==> roots.len() == 0,
        min.entry is Some ==> roots.contains(min.entry->0),
    ensures
        ({
            let fresh = installed(nodes, i as int, lone_entry(value, i));
            let after = spliced(fresh, min, at(i));
            let roots2 = roots_with(roots, min, i);
            &&& forest(after, roots2, kids_with(kids, i))
            &&& values(after) == values(nodes).insert(value)
            &&& after[i as int] is Some
            &&& after[i as int]->0.value == value
            &&& forall|v: usize| roots2.contains(v) <==> roots.contains(v) || v == i
            &&& forall|j: int|
                live(nodes, j) ==> (#[trigger] after[j]) is Some && after[j]->0.value
                    == nodes[j]->0.value
            &&& heap_ordered(nodes) ==> heap_ordered(after)
            &&& min.entry is Some ==> live(fresh, min.entry->0 as int) && fresh[min.entry->0 as int]
                == nodes[min.entry->0 as int]
            &&& strict_weak_order::<T>() && (min.entry is Some ==> least_root(
                nodes,
                roots,
                min.entry->0,
            )) ==> least_root(after, roots2, min_with(nodes, min, i, value).entry->0)
        }),
{
    let fresh = installed(nodes, i as int, lone_entry(value, i));
    let after = spliced(fresh, min, at(i));
    let roots2 = roots_with(roots, min, i);
    let kids2 = kids_with(kids, i);
    lemma_spliced_same(fresh, min, at(i));
    lemma_values_same(fresh, after);
    if i < nodes.len() {
        lemma_values_update(nodes, i as int, Some(lone_entry(value, i)));
    } else {
        lemma_values_push(nodes, Some(lone_entry(value, i)));
    }
    lemma_ring_of_one(fresh, i, nil());
    // The old root ring is untouched by the arrival of the new node.
    assert forall|k: int| 0 <= k < roots.len() implies roots[k] != i && live(
        nodes,
        roots[k] as int,
    ) && fresh[#[trigger] roots[k] as int] == nodes[roots[k] as int] by {
        assert(member_ok(nodes, roots, nil(), k));
    }
    lemma_ring_frame(nodes, fresh, roots, nil());
    match min.entry {
        Some(m) => {
            lemma_ending_with(fresh, roots, nil(), m);
            let a = ending_with(roots, m);
            let b = seq![i];
            assert forall|x: int, y: int| 0 <= x < a.len() && 0 <= y < b.len() implies a[x]
                != b[y] by {
                assert(a.contains(a[x]));
                assert(roots.contains(a[x]));
            }
            lemma_splice(fresh, a, b, nil());
            assert(a + b =~= roots2);
            assert(b.last() == i);
            assert forall|v: usize| roots2.contains(v) <==> roots.contains(v) || v == i by {
                if roots2.contains(v) {
                    let k = choose|k: int| 0 <= k < roots2.len() && roots2[k] == v;
                    if k < a.len() {
                        assert(a.contains(a[k]));
                    }
                }
                if roots.contains(v) {
                    assert(a.contains(v));
                    let k = choose|k: int| 0 <= k < a.len() && a[k] == v;
                    assert(roots2[k] == v);
                }
                if v == i {
                    assert(roots2[a.len() as int] == i);
                }
            }
        },
        None => {
            assert(after == fresh);
            assert forall|v: usize| roots2.contains(v) <==> roots.contains(v) || v == i by {
                if v == i {
                    assert(roots2[0] == i);
                }
            }
        },
    }
    assert(ring(after, roots2, nil()));
    // Nodes below the roots are untouched altogether.
    assert forall|j: usize| #![trigger after[j as int]] live(nodes, j as int) implies {
        &&& after[j as int] is Some
        &&& after[j as int]->0.degree == nodes[j as int]->0.degree
        &&& after[j as int]->0.child == nodes[j as int]->0.child
        &&& after[j as int]->0.parent == nodes[j as int]->0.parent
        &&& nodes[j as int]->0.parent != nil() ==> after[j as int] == nodes[j as int]
    } by {
        assert(fresh[j as int] == nodes[j as int]);
        if nodes[j as int]->0.parent != nil() {
            if roots.contains(j) {
                assert(member_ok(nodes, roots, nil(), roots.index_of(j)));
            }
            if min.entry is Some {
                let a = ending_with(roots, min.entry->0);
                assert(!a.contains(j));
                assert(!seq![i].contains(j));
            }
        }
    }
    lemma_families_kept(nodes, after, roots, kids);
    assert forall|p: usize| live(after, p as int) implies #[trigger] family(
        after,
        p,
        kids2[p as int],
    ) by {
        if p == i {
            assert(kids2[p as int] =~= Seq::<usize>::empty());
        } else {
            assert(live(nodes, p as int));
            assert(family(after, p, kids[p as int]));
        }
    }
    assert forall|j: usize| live(after, j as int) implies #[trigger] placed(
        after,
        roots2,
        kids2,
        j,
    ) by {
        if j != i {
            assert(live(nodes, j as int));
            assert(placed(nodes, roots, kids, j));
        }
    }
    if heap_ordered(nodes) {
        assert forall|j: usize| live(after, j as int) implies #[trigger] above_parent(after, j) by {
            if j != i {
                assert(live(nodes, j as int));
                assert(above_parent(nodes, j));
                assert(placed(nodes, roots, kids, j));
            }
        }
    }
    if min.entry is Some {
        assert(member_ok(nodes, roots, nil(), roots.index_of(min.entry->0)));
    }
    if strict_weak_order::<T>() && (min.entry is Some ==> least_root(nodes, roots, min.entry->0)) {
        let m2 = min_with(nodes, min, i, value).entry->0;
        assert forall|k: int| 0 <= k < roots2.len() implies le(
            after[m2 as int]->0.value,
            after[#[trigger] roots2[k] as int]->0.value,
        ) by {
            let r = roots2[k];
            assert(roots2.contains(r));
            if r == i {
                if m2 != i {
                    assert(lt(nodes[m2 as int]->0.value, value));
                    assert(!lt(value, nodes[m2 as int]->0.value));
                } else {
                    lemma_le_reflexive(value);
                }
            } else {
                let m = min.entry->0;
                let kr = roots.index_of(r);
                assert(member_ok(nodes, roots, nil(), kr));
                assert(le(nodes[m as int]->0.value, nodes[roots[kr] as int]->0.value));
                assert(after[r as int]->0.value == nodes[r as int]->0.value);
                if m2 == i {
                    lemma_le_transitive(value, nodes[m as int]->0.value, nodes[r as int]->0.value);
                } else {
                    assert(after[m as int]->0.value == nodes[m as int]->0.value);
                }
            }
        }
    }
}

} // verus!
