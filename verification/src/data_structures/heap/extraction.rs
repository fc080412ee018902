//! Why taking a root out of the forest and making its children roots
//! leaves a forest.

use super::arena::{at, listed, live, nil, Link, Nodes};
use super::forest::{
    above_parent, ending_with, family, forest, heap_ordered, lemma_ending_with, lemma_families_kept,
    lemma_ring_frame, lemma_rotate, lemma_splice, lemma_spliced_same, lemma_unlink,
    lemma_unlinked_same, lemma_values_same, lemma_values_update, member_ok, orphaned, placed, ring,
    rotated, same_but_neighbours, same_values, spliced, succ, unlinked, values,
};
use vstd::prelude::*;

verus! {

/// A forest but for the node in slot `m`, which has no parent and is not
/// among the roots.
pub open spec fn forest_without<T>(
    nodes: Nodes<T>,
    roots: Seq<usize>,
    kids: Seq<Seq<usize>>,
    m: usize,
) -> bool {
    &&& nodes.len() <= usize::MAX
    &&& kids.len() == nodes.len()
    &&& ring(nodes, roots, nil())
    &&& forall|p: usize| live(nodes, p as int) ==> #[trigger] family(nodes, p, kids[p as int])
    &&& forall|i: usize| live(nodes, i as int) && i != m ==>
        #[trigger] placed(nodes, roots, kids, i)
    &&& live(nodes, m as int)
    &&& nodes[m as int]->0.parent == nil()
    &&& !roots.contains(m)
}

/// The arena after the root in slot `m` has been taken out of the root ring.
pub open spec fn without_root<T>(nodes: Nodes<T>, roots: Seq<usize>, m: usize) -> Nodes<T> {
    if roots.len() >= 2 {
        unlinked(nodes, at(m))
    } else {
        nodes
    }
}

/// Taking a root out of the root ring leaves a forest but for that node.
pub proof fn lemma_unlink_root<T: PartialOrd>(
    nodes: Nodes<T>,
    roots: Seq<usize>,
    kids: Seq<Seq<usize>>,
    m: usize,
)
    requires
        forest(nodes, roots, kids),
        roots.contains(m),
    ensures
        ({
            let after = without_root(nodes, roots, m);
            let rest = ending_with(roots, m).drop_last();
            &&& forest_without(after, rest, kids, m)
            &&& same_but_neighbours(nodes, after)
            &&& after[m as int] == nodes[m as int]
            &&& rest.len() == roots.len() - 1
            &&& nodes[m as int]->0.next == at(m) <==> roots.len() == 1
            &&& roots.len() >= 2 ==>
                nodes[m as int]->0.next == at(rest[0]) && nodes[m as int]->0.prev
                == at(rest.last())
            &&& forall|v: usize| rest.contains(v) <==> roots.contains(v) && v != m
            &&& heap_ordered(nodes) ==> heap_ordered(after)
        }),
{
    let after = without_root(nodes, roots, m);
    let r = ending_with(roots, m);
    let rest = r.drop_last();
    let n = r.len() as int;
    lemma_ending_with(nodes, roots, nil(), m);
    lemma_unlinked_same(nodes, at(m));
    assert(member_ok(nodes, r, nil(), n - 1));
    assert forall|v: usize| rest.contains(v) <==> roots.contains(v) && v != m by {
        if rest.contains(v) {
            let k = choose|k: int| 0 <= k < rest.len() && rest[k] == v;
            assert(r[k] == v);
            assert(r.contains(v));
        }
        if roots.contains(v) && v != m {
            assert(r.contains(v));
            let k = choose|k: int| 0 <= k < r.len() && r[k] == v;
            assert(rest[k] == v);
        }
    }
    if roots.len() >= 2 {
        lemma_unlink(nodes, r, nil());
        assert(member_ok(nodes, r, nil(), n - 2));
        assert(r[0] != r[n - 1]);
        assert(rest[0] == r[0]);
        assert(rest.last() == r[n - 2]);
    } else {
        assert(rest =~= Seq::<usize>::empty());
    }
    assert forall|j: usize| #![trigger after[j as int]] live(nodes, j as int) implies {
        &&& after[j as int] is Some
        &&& after[j as int]->0.degree == nodes[j as int]->0.degree
        &&& after[j as int]->0.child == nodes[j as int]->0.child
        &&& after[j as int]->0.parent == nodes[j as int]->0.parent
        &&& nodes[j as int]->0.parent != nil() ==> after[j as int] == nodes[j as int]
    } by {
        if nodes[j as int]->0.parent != nil() {
            if r.contains(j) {
                assert(member_ok(nodes, r, nil(), r.index_of(j)));
            }
        }
    }
    lemma_families_kept(nodes, after, roots, kids);
    assert forall|i: usize| live(after, i as int) && i != m implies #[trigger] placed(
        after,
        rest,
        kids,
        i,
    ) by {
        assert(placed(nodes, roots, kids, i));
    }
    if heap_ordered(nodes) {
        assert forall|j: usize| live(after, j as int) implies #[trigger] above_parent(after, j) by {
            assert(above_parent(nodes, j));
            assert(placed(nodes, roots, kids, j));
        }
    }
}

/// The way into the root ring after the root in slot `m` has left it.
pub open spec fn entry_without(rest: Seq<usize>) -> Link {
    if rest.len() > 0 {
        at(rest[0])
    } else {
        nil()
    }
}

/// The root ring after the children `c` of a removed root have joined the
/// remaining roots `rest`.
pub open spec fn roots_joined(rest: Seq<usize>, c: Seq<usize>) -> Seq<usize> {
    if rest.len() > 0 && c.len() > 0 {
        rotated(rest, 1) + rotated(c, 1)
    } else if rest.len() > 0 {
        rest
    } else {
        c
    }
}

/// The arena after the ring `c`, whose members lose their parent, has been
/// spliced into the ring `rest`.
pub open spec fn orphans_joined<T>(nodes: Nodes<T>, rest: Seq<usize>, c: Seq<usize>, child: Link) -> Nodes<
    T,
> {
    spliced(orphaned(nodes, c), entry_without(rest), child)
}

/// A ring of siblings that lose their parent and join the root ring make one
/// ring of roots with it; nodes outside the two rings are untouched.
pub proof fn lemma_orphans_join<T>(
    nodes: Nodes<T>,
    rest: Seq<usize>,
    c: Seq<usize>,
    owner: Link,
    child: Link,
)
    requires
        nodes.len() <= usize::MAX,
        ring(nodes, rest, nil()),
        ring(nodes, c, owner),
        owner != nil(),
        c.len() > 0 ==> child == at(c[0]),
        c.len() == 0 ==> child == nil(),
    ensures
        ({
            let after = orphans_joined(nodes, rest, c, child);
            let roots2 = roots_joined(rest, c);
            &&& ring(after, roots2, nil())
            &&& forall|v: usize| roots2.contains(v) <==> rest.contains(v) || c.contains(v)
            &&& after.len() == nodes.len()
            &&& forall|i: int|
                0 <= i < nodes.len() && !rest.contains(i as usize) && !c.contains(i as usize)
                    ==> #[trigger] after[i] == nodes[i]
            &&& forall|i: int|
                0 <= i < nodes.len() ==> match #[trigger] nodes[i] {
                    Some(e) => after[i] is Some && after[i]->0.value == e.value
                        && after[i]->0.degree == e.degree && after[i]->0.child == e.child
                        && after[i]->0.parent == if c.contains(i as usize) {
                        nil()
                    } else {
                        e.parent
                    },
                    None => after[i] is None,
                }
        }),
{
    let n2 = orphaned(nodes, c);
    let after = orphans_joined(nodes, rest, c, child);
    let roots2 = roots_joined(rest, c);
    assert forall|i: int| 0 <= i < nodes.len() implies
        (listed(c, i) <==> c.contains(i as usize)) by {
        if listed(c, i) {
            let t = choose|t: int| 0 <= t < c.len() && #[trigger] c[t] as int == i;
            assert(c[t] == i as usize);
        }
        if c.contains(i as usize) {
            let t = c.index_of(i as usize);
            assert(c[t] as int == i);
        }
    }
    assert forall|k: int| 0 <= k < c.len() implies live(nodes, c[k] as int) && c.contains(
        #[trigger] c[k],
    ) by {
        assert(member_ok(nodes, c, owner, k));
    }
    assert forall|k: int| 0 <= k < rest.len() implies live(nodes, rest[k] as int) && !c.contains(
        #[trigger] rest[k],
    ) by {
        assert(member_ok(nodes, rest, nil(), k));
        if c.contains(rest[k]) {
            assert(member_ok(nodes, c, owner, c.index_of(rest[k])));
        }
    }
    assert(ring(n2, rest, nil())) by {
        assert forall|k: int| 0 <= k < rest.len() implies
            #[trigger] member_ok(n2, rest, nil(), k) by {
            assert(member_ok(nodes, rest, nil(), k));
            let k2 = succ(k, rest.len() as int);
            assert(!c.contains(rest[k]));
            assert(!c.contains(rest[k2]));
            assert(n2[rest[k] as int] == nodes[rest[k] as int]);
            assert(n2[rest[k2] as int] == nodes[rest[k2] as int]);
        }
    }
    assert(ring(n2, c, nil())) by {
        assert forall|k: int| 0 <= k < c.len() implies #[trigger] member_ok(n2, c, nil(), k) by {
            assert(member_ok(nodes, c, owner, k));
            let k2 = succ(k, c.len() as int);
            assert(c.contains(c[k]));
            assert(c.contains(c[k2]));
        }
    }
    lemma_spliced_same(n2, entry_without(rest), child);
    if rest.len() > 0 && c.len() > 0 {
        let a = rotated(rest, 1);
        let b = rotated(c, 1);
        lemma_rotate(n2, rest, nil(), 1);
        lemma_rotate(n2, c, nil(), 1);
        assert forall|x: int, y: int| 0 <= x < a.len() && 0 <= y < b.len() implies a[x] != b[y] by {
            assert(a.contains(a[x]));
            assert(b.contains(b[y]));
            let kx = rest.index_of(a[x]);
            assert(!c.contains(rest[kx]));
        }
        lemma_splice(n2, a, b, nil());
        assert forall|v: usize| roots2.contains(v) <==> rest.contains(v) || c.contains(v) by {
            if roots2.contains(v) {
                let k = choose|k: int| 0 <= k < roots2.len() && roots2[k] == v;
                if k < a.len() {
                    assert(a.contains(a[k]));
                } else {
                    assert(b.contains(b[k - a.len()]));
                }
            }
            if rest.contains(v) {
                assert(a.contains(v));
                let k = choose|k: int| 0 <= k < a.len() && a[k] == v;
                assert(roots2[k] == v);
            }
            if c.contains(v) {
                assert(b.contains(v));
                let k = choose|k: int| 0 <= k < b.len() && b[k] == v;
                assert(roots2[a.len() + k] == v);
            }
        }
        assert forall|i: int|
            0 <= i < nodes.len() && !rest.contains(i as usize) && !c.contains(
                i as usize,
            ) implies #[trigger] after[i] == nodes[i] by {
            assert(!a.contains(i as usize));
            assert(!b.contains(i as usize));
        }
    } else {
        assert(after =~= n2);
    }
}

/// The arena after the children `c` of the node in slot `m`, which has left
/// the root ring, have become roots and the node has left the arena.
pub open spec fn promoted<T>(nodes: Nodes<T>, rest: Seq<usize>, c: Seq<usize>, m: usize) -> Nodes<
    T,
> {
    orphans_joined(nodes, rest, c, nodes[m as int]->0.child).update(m as int, None)
}

/// Once a root has left the root ring, making its children roots and
/// dropping the node leaves a forest that lacks exactly the node's value.
pub proof fn lemma_promote_children<T: PartialOrd>(
    nodes: Nodes<T>,
    rest: Seq<usize>,
    kids: Seq<Seq<usize>>,
    m: usize,
    c: Seq<usize>,
)
    requires
        forest_without(nodes, rest, kids, m),
        ring(nodes, c, at(m)),
        c.len() == kids[m as int].len(),
        forall|v: usize| c.contains(v) <==> kids[m as int].contains(v),
        c.len() > 0 ==> nodes[m as int]->0.child == at(c[0]),
    ensures
        ({
            let after = promoted(nodes, rest, c, m);
            let roots2 = roots_joined(rest, c);
            &&& forest(after, roots2, kids)
            &&& values(nodes).contains(nodes[m as int]->0.value)
            &&& values(after) == values(nodes).remove(nodes[m as int]->0.value)
            &&& heap_ordered(nodes) ==> heap_ordered(after)
            &&& forall|v: usize| roots2.contains(v) <==> rest.contains(v) || c.contains(v)
            &&& forall|j: int|
                live(nodes, j) && j != m ==> (#[trigger] after[j]) is Some && after[j]->0.value
                    == nodes[j]->0.value && after[j]->0.degree == nodes[j]->0.degree
        }),
{
    let child = nodes[m as int]->0.child;
    assert(family(nodes, m, kids[m as int]));
    lemma_orphans_join(nodes, rest, c, at(m), child);
    lemma_promote_finish(nodes, orphans_joined(nodes, rest, c, child), rest, kids, m, c);
}

/// The last step of removing a root: with its children among the roots, the
/// node can leave the arena.
pub proof fn lemma_promote_finish<T: PartialOrd>(
    nodes: Nodes<T>,
    n3: Nodes<T>,
    rest: Seq<usize>,
    kids: Seq<Seq<usize>>,
    m: usize,
    c: Seq<usize>,
)
    requires
        forest_without(nodes, rest, kids, m),
        ring(nodes, c, at(m)),
        forall|v: usize| c.contains(v) <==> kids[m as int].contains(v),
        ({
            let roots2 = roots_joined(rest, c);
            &&& ring(n3, roots2, nil())
            &&& forall|v: usize| roots2.contains(v) <==> rest.contains(v) || c.contains(v)
            &&& n3.len() == nodes.len()
            &&& forall|i: int|
                0 <= i < nodes.len() && !rest.contains(i as usize) && !c.contains(i as usize)
                    ==> #[trigger] n3[i] == nodes[i]
            &&& forall|i: int|
                0 <= i < nodes.len() ==> match #[trigger] nodes[i] {
                    Some(e) => n3[i] is Some && n3[i]->0.value == e.value && n3[i]->0.degree
                        == e.degree && n3[i]->0.child == e.child && n3[i]->0.parent == if c.contains(
                        i as usize,
                    ) {
                        nil()
                    } else {
                        e.parent
                    },
                    None => n3[i] is None,
                }
        }),
    ensures
        ({
            let after = n3.update(m as int, None);
            let roots2 = roots_joined(rest, c);
            &&& forest(after, roots2, kids)
            &&& values(nodes).contains(nodes[m as int]->0.value)
            &&& values(after) == values(nodes).remove(nodes[m as int]->0.value)
            &&& heap_ordered(nodes) ==> heap_ordered(after)
            &&& forall|j: int|
                live(nodes, j) && j != m ==> (#[trigger] after[j]) is Some && after[j]->0.value
                    == nodes[j]->0.value && after[j]->0.degree == nodes[j]->0.degree
        }),
{
    let after = n3.update(m as int, None);
    let roots2 = roots_joined(rest, c);
    assert(!roots2.contains(m)) by {
        if c.contains(m) {
            let t = c.index_of(m);
            assert(member_ok(nodes, c, at(m), t));
        }
    }
    assert(ring(after, roots2, nil())) by {
        assert forall|k: int| 0 <= k < roots2.len() implies {
            &&& (#[trigger] after[roots2[k] as int]) is Some
            &&& after[roots2[k] as int]->0.parent == n3[roots2[k] as int]->0.parent
            &&& after[roots2[k] as int]->0.next == n3[roots2[k] as int]->0.next
            &&& after[roots2[k] as int]->0.prev == n3[roots2[k] as int]->0.prev
        } by {
            assert(member_ok(n3, roots2, nil(), k));
            assert(roots2.contains(roots2[k]));
        }
        lemma_ring_frame(n3, after, roots2, nil());
    }
    assert forall|p: usize| live(after, p as int) implies #[trigger] family(
        after,
        p,
        kids[p as int],
    ) by {
        let f = kids[p as int];
        assert(p != m);
        assert(live(nodes, p as int));
        assert(family(nodes, p, f));
        assert forall|k: int| 0 <= k < f.len() implies (#[trigger] after[f[k] as int])
            == nodes[f[k] as int] && after[f[k] as int] is Some by {
            assert(member_ok(nodes, f, at(p), k));
            let x = f[k];
            if rest.contains(x) {
                assert(member_ok(nodes, rest, nil(), rest.index_of(x)));
            }
            if c.contains(x) {
                assert(member_ok(nodes, c, at(m), c.index_of(x)));
            }
            assert(n3[x as int] == nodes[x as int]);
        }
        lemma_ring_frame(nodes, after, f, at(p));
        assert(nodes[p as int] is Some);
        assert(after[p as int]->0.degree == nodes[p as int]->0.degree);
        assert(after[p as int]->0.child == nodes[p as int]->0.child);
    }
    assert forall|i: usize| live(after, i as int) implies #[trigger] placed(
        after,
        roots2,
        kids,
        i,
    ) by {
        assert(i != m);
        assert(nodes[i as int] is Some);
        assert(placed(nodes, rest, kids, i));
        if !c.contains(i) {
            assert(after[i as int]->0.parent == nodes[i as int]->0.parent);
            match nodes[i as int]->0.parent.entry {
                Some(p) => {
                    assert(p != m);
                    assert(nodes[p as int] is Some);
                },
                None => {},
            }
        }
    }
    assert(same_values(nodes, n3));
    lemma_values_same(nodes, n3);
    lemma_values_update(n3, m as int, None);
    assert(nodes[m as int] is Some);
    if heap_ordered(nodes) {
        assert forall|j: usize| live(after, j as int) implies #[trigger] above_parent(after, j) by {
            assert(nodes[j as int] is Some);
            assert(above_parent(nodes, j));
            assert(placed(after, roots2, kids, j));
            if after[j as int]->0.parent.entry is Some {
                let p = after[j as int]->0.parent.entry->0;
                assert(nodes[p as int] is Some);
            }
        }
    }
    assert forall|j: int| live(nodes, j) && j != m implies (#[trigger] after[j]) is Some
        && after[j]->0.value == nodes[j]->0.value && after[j]->0.degree
        == nodes[j]->0.degree by {
        assert(nodes[j] is Some);
    }
}

} // verus!
