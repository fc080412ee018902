//! Why making one root the child of another leaves a forest.

use super::arena::{
    at, live, nil, with_child, with_degree, with_next, with_parent, with_prev, Link, Nodes,
};
use super::extraction::{forest_without, lemma_unlink_root, without_root};
use super::forest::{
    above_parent, ending_with, family, forest, heap_ordered, lemma_distinct_slots,
    lemma_ending_with, lemma_ring_frame, lemma_ring_of_one, lemma_splice, lemma_spliced_same,
    member_ok, placed, ring, same_values, spliced, unlinked,
};
use crate::order::le;
use vstd::prelude::*;

verus! {

/// The arena after the root in slot `l` has become a child of the root in
/// slot `w`: `l` leaves the root ring, becomes a ring of its own with `w` as
/// parent, and is spliced into the children of `w`, into whose ring `entry`
/// then leads.
pub open spec fn adopted<T>(nodes: Nodes<T>, w: usize, l: usize, entry: Link) -> Nodes<T> {
    let n4 = joined_children(unlinked(nodes, at(l)), w, l);
    let n5 = with_child(n4, at(w), entry);
    with_degree(n5, at(w), (n5[w as int]->0.degree + 1) as usize)
}

/// The children of `w` after `l` has joined them.
pub open spec fn kids_adopted<T>(nodes: Nodes<T>, kids: Seq<Seq<usize>>, w: usize, l: usize) -> Seq<
    Seq<usize>,
> {
    kids.update(w as int, ring_adopted(kids[w as int], nodes[w as int]->0.child, l))
}

/// A root has room for one more child.
pub proof fn lemma_room_for_child<T>(
    nodes: Nodes<T>,
    roots: Seq<usize>,
    kids: Seq<Seq<usize>>,
    w: usize,
    l: usize,
)
    requires
        forest(nodes, roots, kids),
        roots.contains(w),
        roots.contains(l),
    ensures
        live(nodes, w as int),
        live(nodes, l as int),
        nodes[w as int]->0.degree < usize::MAX,
        nodes[w as int]->0.child.entry is Some ==> kids[w as int].len() > 0 && live(
            nodes,
            nodes[w as int]->0.child.entry->0 as int,
        ),
{
    assert(member_ok(nodes, roots, nil(), roots.index_of(w)));
    assert(member_ok(nodes, roots, nil(), roots.index_of(l)));
    assert(family(nodes, w, kids[w as int]));
    let c = kids[w as int];
    let s = c.push(l);
    assert forall|k: int| 0 <= k < c.len() implies c[k] != l && c[k] < nodes.len() by {
        assert(member_ok(nodes, c, at(w), k));
    }
    lemma_distinct_slots(s, nodes.len());
    if c.len() > 0 {
        assert(member_ok(nodes, c, at(w), c.index_of(nodes[w as int]->0.child.entry->0)));
    }
}

/// The ring of the children of `w` after `l` has joined the ring `c`.
pub open spec fn ring_adopted(c: Seq<usize>, child: Link, l: usize) -> Seq<usize> {
    if c.len() > 0 {
        ending_with(c, child.entry->0).push(l)
    } else {
        seq![l]
    }
}

/// The arena after the node in slot `l`, which is in no ring, has become a
/// ring of its own with `w` as parent and has been spliced into the ring of
/// the children of `w`.
pub open spec fn joined_children<T>(nodes: Nodes<T>, w: usize, l: usize) -> Nodes<T> {
    let n2 = with_next(with_prev(nodes, at(l), at(l)), at(l), at(l));
    let n3 = with_parent(n2, at(l), at(w));
    spliced(n3, n3[w as int]->0.child, at(l))
}

/// A node that joins the children of `w` extends their ring by itself and
/// touches no node outside that ring.
pub proof fn lemma_join_children<T>(nodes: Nodes<T>, c: Seq<usize>, w: usize, l: usize)
    requires
        nodes.len() <= usize::MAX,
        live(nodes, w as int),
        live(nodes, l as int),
        w != l,
        ring(nodes, c, at(w)),
        forall|k: int| 0 <= k < c.len() ==> #[trigger] c[k] != l && c[k] != w,
        c.len() > 0 ==> nodes[w as int]->0.child.entry is Some && c.contains(
            nodes[w as int]->0.child.entry->0,
        ),
        c.len() == 0 ==> nodes[w as int]->0.child == nil(),
    ensures
        ({
            let after = joined_children(nodes, w, l);
            let ring2 = ring_adopted(c, nodes[w as int]->0.child, l);
            &&& ring(after, ring2, at(w))
            &&& ring2.len() == c.len() + 1
            &&& forall|v: usize| ring2.contains(v) <==> c.contains(v) || v == l
            &&& after.len() == nodes.len()
            &&& forall|i: int|
                0 <= i < nodes.len() && i != l && !c.contains(i as usize) ==> #[trigger] after[i]
                    == nodes[i]
            &&& forall|i: int|
                0 <= i < nodes.len() ==> match #[trigger] nodes[i] {
                    Some(e) => after[i] is Some && after[i]->0.value == e.value
                        && after[i]->0.degree == e.degree && after[i]->0.child == e.child && (i
                        != l ==> after[i]->0.parent == e.parent),
                    None => after[i] is None,
                }
            &&& after[l as int]->0.parent == at(w)
        }),
{
    let child = nodes[w as int]->0.child;
    let n2 = with_next(with_prev(nodes, at(l), at(l)), at(l), at(l));
    let n3 = with_parent(n2, at(l), at(w));
    let after = joined_children(nodes, w, l);
    let ring2 = ring_adopted(c, child, l);
    assert(n3[w as int]->0.child == child);
    lemma_ring_of_one(n3, l, at(w));
    assert(ring(n3, c, at(w))) by {
        assert forall|k: int| 0 <= k < c.len() implies {
            &&& (#[trigger] n3[c[k] as int]) is Some
            &&& n3[c[k] as int]->0.parent == nodes[c[k] as int]->0.parent
            &&& n3[c[k] as int]->0.next == nodes[c[k] as int]->0.next
            &&& n3[c[k] as int]->0.prev == nodes[c[k] as int]->0.prev
        } by {
            assert(member_ok(nodes, c, at(w), k));
            assert(c[k] != l);
        }
        lemma_ring_frame(nodes, n3, c, at(w));
    }
    lemma_spliced_same(n3, child, at(l));
    if c.len() > 0 {
        let x = child.entry->0;
        lemma_ending_with(n3, c, at(w), x);
        let a = ending_with(c, x);
        let b = seq![l];
        assert forall|i: int, j: int| 0 <= i < a.len() && 0 <= j < b.len() implies a[i] != b[j] by {
            assert(a.contains(a[i]));
            assert(c.contains(a[i]));
            assert(c[c.index_of(a[i])] != l);
        }
        lemma_splice(n3, a, b, at(w));
        assert(a + b =~= ring2);
        assert(child == at(a.last()));
        assert forall|v: usize| ring2.contains(v) <==> c.contains(v) || v == l by {
            if ring2.contains(v) {
                let k = choose|k: int| 0 <= k < ring2.len() && ring2[k] == v;
                if k < a.len() {
                    assert(a.contains(a[k]));
                }
            }
            if c.contains(v) {
                assert(a.contains(v));
                let k = choose|k: int| 0 <= k < a.len() && a[k] == v;
                assert(ring2[k] == v);
            }
            if v == l {
                assert(ring2[a.len() as int] == l);
            }
        }
        assert forall|i: int|
            0 <= i < nodes.len() && i != l && !c.contains(i as usize) implies #[trigger] after[i]
            == nodes[i] by {
            assert(!a.contains(i as usize));
            assert(!b.contains(i as usize));
        }
    } else {
        assert(after == n3);
        assert forall|v: usize| ring2.contains(v) <==> c.contains(v) || v == l by {
            if v == l {
                assert(ring2[0] == l);
            }
        }
    }
}

/// Making one root the child of another leaves a forest with one root less
/// and the same values in the same slots.
pub proof fn lemma_adopt<T: PartialOrd>(
    nodes: Nodes<T>,
    roots: Seq<usize>,
    kids: Seq<Seq<usize>>,
    w: usize,
    l: usize,
    entry: Link,
)
    requires
        forest(nodes, roots, kids),
        roots.contains(w),
        roots.contains(l),
        w != l,
        nodes[l as int]->0.degree <= nodes[w as int]->0.degree < usize::MAX,
        entry == at(l) || (kids[w as int].len() > 0 && entry == nodes[w as int]->0.child),
    ensures
        ({
            let after = adopted(nodes, w, l, entry);
            let roots2 = ending_with(roots, l).drop_last();
            let kids2 = kids_adopted(nodes, kids, w, l);
            &&& forest(after, roots2, kids2)
            &&& same_values(nodes, after)
            &&& roots2.len() == roots.len() - 1
            &&& forall|v: usize| roots2.contains(v) <==> roots.contains(v) && v != l
            &&& after[w as int]->0.degree == nodes[w as int]->0.degree + 1
            &&& forall|j: int|
                live(nodes, j) && j != w ==> (#[trigger] after[j])->0.degree
                    == nodes[j]->0.degree
            &&& heap_ordered(nodes) && le(nodes[w as int]->0.value, nodes[l as int]->0.value)
                ==> heap_ordered(after)
        }),
{
    let n1 = unlinked(nodes, at(l));
    let n4 = joined_children(n1, w, l);
    let roots2 = ending_with(roots, l).drop_last();
    let c = kids[w as int];
    assert(member_ok(nodes, roots, nil(), roots.index_of(w)));
    assert(member_ok(nodes, roots, nil(), roots.index_of(l)));
    assert(family(nodes, w, c));
    lemma_unlink_root(nodes, roots, kids, l);
    assert(roots.len() >= 2) by {
        assert(roots[roots.index_of(w)] != roots[roots.index_of(l)]);
    }
    assert(n1 == without_root(nodes, roots, l));
    assert(live(n1, w as int));
    assert(family(n1, w, c));
    assert forall|k: int| 0 <= k < c.len() implies #[trigger] c[k] != l && c[k] != w by {
        assert(member_ok(n1, c, at(w), k));
    }
    lemma_join_children(n1, c, w, l);
    assert(n1[w as int]->0.child == nodes[w as int]->0.child);
    assert(n1[w as int]->0.degree == nodes[w as int]->0.degree);
    lemma_adopt_finish(n1, n4, roots2, kids, w, l, entry);
    assert(adopted(nodes, w, l, entry) == with_degree(
        with_child(n4, at(w), entry),
        at(w),
        (n1[w as int]->0.degree + 1) as usize,
    ));
    let after = adopted(nodes, w, l, entry);
    assert(kids_adopted(nodes, kids, w, l) == kids.update(
        w as int,
        ring_adopted(c, n1[w as int]->0.child, l),
    ));
    assert(same_values(nodes, after));
    if heap_ordered(nodes) && le(nodes[w as int]->0.value, nodes[l as int]->0.value) {
        assert(le(n1[w as int]->0.value, n1[l as int]->0.value));
        assert(heap_ordered(after));
    }
    assert forall|j: int| live(nodes, j) && j != w implies (#[trigger] after[j])->0.degree
        == nodes[j]->0.degree by {
        assert(n1[j]->0.degree == nodes[j]->0.degree);
        assert(n4[j]->0.degree == n1[j]->0.degree);
    }
}

/// The last step of an adoption: once the loser has joined the children of
/// the winner, recording the way into their ring and the new degree in the
/// winner completes the forest.
pub proof fn lemma_adopt_finish<T: PartialOrd>(
    n1: Nodes<T>,
    n4: Nodes<T>,
    roots: Seq<usize>,
    kids: Seq<Seq<usize>>,
    w: usize,
    l: usize,
    entry: Link,
)
    requires
        forest_without(n1, roots, kids, l),
        roots.contains(w),
        w != l,
        n1[l as int]->0.degree <= n1[w as int]->0.degree < usize::MAX,
        entry == at(l) || (kids[w as int].len() > 0 && entry == n1[w as int]->0.child),
        ({
            let c = kids[w as int];
            let ring2 = ring_adopted(c, n1[w as int]->0.child, l);
            &&& ring(n4, ring2, at(w))
            &&& ring2.len() == c.len() + 1
            &&& forall|v: usize| ring2.contains(v) <==> c.contains(v) || v == l
            &&& n4.len() == n1.len()
            &&& forall|i: int|
                0 <= i < n1.len() && i != l && !c.contains(i as usize) ==> #[trigger] n4[i]
                    == n1[i]
            &&& forall|i: int|
                0 <= i < n1.len() ==> match #[trigger] n1[i] {
                    Some(e) => n4[i] is Some && n4[i]->0.value == e.value && n4[i]->0.degree
                        == e.degree && n4[i]->0.child == e.child && (i != l ==> n4[i]->0.parent
                        == e.parent),
                    None => n4[i] is None,
                }
            &&& n4[l as int]->0.parent == at(w)
        }),
    ensures
        ({
            let c = kids[w as int];
            let ring2 = ring_adopted(c, n1[w as int]->0.child, l);
            let after = with_degree(
                with_child(n4, at(w), entry),
                at(w),
                (n1[w as int]->0.degree + 1) as usize,
            );
            &&& forest(after, roots, kids.update(w as int, ring2))
            &&& same_values(n1, after)
            &&& after[w as int]->0.degree == n1[w as int]->0.degree + 1
            &&& heap_ordered(n1) && le(n1[w as int]->0.value, n1[l as int]->0.value)
                ==> heap_ordered(after)
        }),
{
    let c = kids[w as int];
    let ring2 = ring_adopted(c, n1[w as int]->0.child, l);
    let kids2 = kids.update(w as int, ring2);
    let after = with_degree(
        with_child(n4, at(w), entry),
        at(w),
        (n1[w as int]->0.degree + 1) as usize,
    );
    let kw = roots.index_of(w);
    assert(member_ok(n1, roots, nil(), kw));
    assert(family(n1, w, c));
    assert forall|i: int| 0 <= i < n4.len() && i != w implies #[trigger] after[i] == n4[i] by {}
    assert(n1[w as int] is Some);
    assert(n4[w as int] is Some);
    assert(after[w as int]->0.parent == n4[w as int]->0.parent);
    assert(after[w as int]->0.next == n4[w as int]->0.next);
    assert(after[w as int]->0.prev == n4[w as int]->0.prev);
    assert(after[w as int]->0.value == n4[w as int]->0.value);
    assert forall|k: int| 0 <= k < c.len() implies
        live(n1, #[trigger] c[k] as int) && n1[c[k] as int]->0.parent
        == at(w) && c[k] != l && c[k] != w && n1[c[k] as int]->0.degree < c.len() by {
        assert(member_ok(n1, c, at(w), k));
    }
    assert(!ring2.contains(w)) by {
        if c.contains(w) {
            assert(c[c.index_of(w)] != w);
        }
    }
    assert(ring(after, ring2, at(w))) by {
        assert forall|k: int| 0 <= k < ring2.len() implies {
            &&& (#[trigger] after[ring2[k] as int]) is Some
            &&& after[ring2[k] as int]->0.parent == n4[ring2[k] as int]->0.parent
            &&& after[ring2[k] as int]->0.next == n4[ring2[k] as int]->0.next
            &&& after[ring2[k] as int]->0.prev == n4[ring2[k] as int]->0.prev
        } by {
            assert(member_ok(n4, ring2, at(w), k));
            assert(ring2.contains(ring2[k]));
        }
        lemma_ring_frame(n4, after, ring2, at(w));
    }
    assert(family(after, w, ring2)) by {
        assert forall|k: int| 0 <= k < ring2.len() implies
            after[#[trigger] ring2[k] as int]->0.degree
            < ring2.len() by {
            let v = ring2[k];
            assert(ring2.contains(v));
            assert(member_ok(n4, ring2, at(w), k));
            if v != l {
                assert(c[c.index_of(v)] == v);
            }
        }
        if entry == at(l) {
            assert(ring2.contains(l));
        } else {
            assert(c.contains(n1[w as int]->0.child.entry->0));
            assert(ring2.contains(n1[w as int]->0.child.entry->0));
        }
    }
    assert(ring(after, roots, nil())) by {
        assert forall|k: int| 0 <= k < roots.len() implies {
            &&& (#[trigger] after[roots[k] as int]) is Some
            &&& after[roots[k] as int]->0.parent == n1[roots[k] as int]->0.parent
            &&& after[roots[k] as int]->0.next == n1[roots[k] as int]->0.next
            &&& after[roots[k] as int]->0.prev == n1[roots[k] as int]->0.prev
        } by {
            let v = roots[k];
            assert(member_ok(n1, roots, nil(), k));
            assert(roots.contains(v));
            assert(v != l);
            if c.contains(v) {
                assert(c[c.index_of(v)] == v);
            }
            assert(n4[v as int] == n1[v as int]);
        }
        lemma_ring_frame(n1, after, roots, nil());
    }
    assert forall|p: usize| live(after, p as int) implies #[trigger] family(
        after,
        p,
        kids2[p as int],
    ) by {
        if p != w {
            let f = kids[p as int];
            assert(live(n1, p as int));
            assert(family(n1, p, f));
            assert forall|k: int| 0 <= k < f.len() implies (#[trigger] after[f[k] as int])
                == n1[f[k] as int] && after[f[k] as int] is Some by {
                assert(member_ok(n1, f, at(p), k));
                let v = f[k];
                if c.contains(v) {
                    assert(c[c.index_of(v)] == v);
                }
                assert(n4[v as int] == n1[v as int]);
            }
            lemma_ring_frame(n1, after, f, at(p));
            assert(after[p as int]->0.degree == n1[p as int]->0.degree);
            assert(after[p as int]->0.child == n1[p as int]->0.child);
        }
    }
    assert forall|i: usize| live(after, i as int) implies #[trigger] placed(
        after,
        roots,
        kids2,
        i,
    ) by {
        assert(live(n1, i as int));
        if i == l {
            assert(ring2.contains(l));
        } else {
            assert(placed(n1, roots, kids, i));
            assert(after[i as int]->0.parent == n1[i as int]->0.parent);
            match n1[i as int]->0.parent.entry {
                Some(p) => {
                    if p == w {
                        assert(ring2.contains(i));
                    }
                },
                None => {},
            }
        }
    }
    assert(same_values(n1, after));
    if heap_ordered(n1) && le(n1[w as int]->0.value, n1[l as int]->0.value) {
        assert forall|j: usize| live(after, j as int) implies #[trigger] above_parent(after, j) by {
            assert(n1[j as int] is Some);
            assert(n4[j as int] is Some);
            assert(after[j as int]->0.value == n1[j as int]->0.value);
            if j != l {
                assert(above_parent(n1, j));
                assert(after[j as int]->0.parent == n1[j as int]->0.parent);
                assert(placed(after, roots, kids2, j));
                if after[j as int]->0.parent.entry is Some {
                    let p = after[j as int]->0.parent.entry->0;
                    assert(n1[p as int] is Some);
                    assert(n4[p as int] is Some);
                    assert(after[p as int]->0.value == n1[p as int]->0.value);
                }
            } else {
                assert(after[l as int]->0.parent == at(w));
                assert(after[w as int]->0.value == n1[w as int]->0.value);
            }
        }
    }
}

} // verus!
