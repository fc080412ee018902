//! Why two forests, placed side by side with their root rings joined, are
//! one forest.

use super::arena::{
    at, link_in_bounds, links_in_bounds, live, nil, shifted, shifted_link, Link, Nodes,
};
use super::forest::{
    above_parent, ending_with, family, forest, heap_ordered, least_root, lemma_ending_with,
    lemma_ring_frame, lemma_splice, lemma_spliced_same, lemma_values_concat, lemma_values_shifted,
    member_ok, placed, ring, same_but_neighbours, spliced, succ, values,
};
use crate::order::{le, lemma_le_transitive, lt, strict_weak_order};
use vstd::prelude::*;

verus! {

/// The ring `s` with every member moved `offset` slots up.
pub open spec fn shifted_ring(s: Seq<usize>, offset: int) -> Seq<usize> {
    Seq::new(s.len(), |k: int| (s[k] + offset) as usize)
}

/// The rings of children of two arenas, the second placed behind the first
/// and moved `offset` slots up.
pub open spec fn kids_side_by_side(
    kx: Seq<Seq<usize>>,
    ky: Seq<Seq<usize>>,
    offset: int,
) -> Seq<Seq<usize>> {
    kx + Seq::new(ky.len(), |p: int| shifted_ring(ky[p], offset))
}

/// A forest whose roots form two separate rings, `a` and `b`.
pub open spec fn forest_of_two<T>(
    nodes: Nodes<T>,
    a: Seq<usize>,
    b: Seq<usize>,
    kids: Seq<Seq<usize>>,
) -> bool {
    &&& nodes.len() <= usize::MAX
    &&& kids.len() == nodes.len()
    &&& ring(nodes, a, nil())
    &&& ring(nodes, b, nil())
    &&& forall|i: int, j: int| 0 <= i < a.len() && 0 <= j < b.len() ==> a[i] != b[j]
    &&& forall|p: usize| live(nodes, p as int) ==> #[trigger] family(nodes, p, kids[p as int])
    &&& forall|i: usize| live(nodes, i as int) ==> #[trigger] placed(nodes, a + b, kids, i)
}

/// The root ring made of the rings `a` and `b`, joined behind `x` and `y`.
pub open spec fn roots_of_two(a: Seq<usize>, x: Link, b: Seq<usize>, y: Link) -> Seq<usize> {
    if x.entry is Some && y.entry is Some {
        ending_with(a, x.entry->0) + ending_with(b, y.entry->0)
    } else if x.entry is Some {
        a
    } else {
        b
    }
}

/// A ring of one arena is, moved up, a ring of the arena that holds it
/// behind another.
pub proof fn lemma_shifted_ring<T>(front: Nodes<T>, back: Nodes<T>, s: Seq<usize>, owner: Link)
    requires
        ring(back, s, owner),
        front.len() + back.len() <= usize::MAX,
    ensures
        ring(
            front + shifted(back, front.len() as int),
            shifted_ring(s, front.len() as int),
            shifted_link(owner, front.len() as int),
        ),
{
    let offset = front.len() as int;
    let both = front + shifted(back, offset);
    let s2 = shifted_ring(s, offset);
    assert forall|k: int| 0 <= k < s2.len() implies #[trigger] member_ok(
        both,
        s2,
        shifted_link(owner, offset),
        k,
    ) by {
        assert(member_ok(back, s, owner, k));
        let k2 = succ(k, s.len() as int);
        assert(member_ok(back, s, owner, k2));
        assert(both[s2[k] as int] == shifted(back, offset)[s[k] as int]);
        assert(both[s2[k2] as int] == shifted(back, offset)[s[k2] as int]);
    }
    assert forall|i: int, j: int| 0 <= i < s2.len() && 0 <= j < s2.len() && i != j implies s2[i]
        != s2[j] by {
        assert(member_ok(back, s, owner, i));
        assert(member_ok(back, s, owner, j));
        assert(s[i] != s[j]);
    }
}

/// Two forests, the second placed behind the first, are a forest whose
/// roots form two rings.
pub proof fn lemma_side_by_side<T: PartialOrd>(
    nx: Nodes<T>,
    rx: Seq<usize>,
    kx: Seq<Seq<usize>>,
    ny: Nodes<T>,
    ry: Seq<usize>,
    ky: Seq<Seq<usize>>,
)
    requires
        forest(nx, rx, kx),
        forest(ny, ry, ky),
        nx.len() + ny.len() <= usize::MAX,
    ensures
        ({
            let offset = nx.len() as int;
            let both = nx + shifted(ny, offset);
            &&& forest_of_two(both, rx, shifted_ring(ry, offset), kids_side_by_side(kx, ky, offset))
            &&& values(both) == values(nx).add(values(ny))
            &&& heap_ordered(nx) && heap_ordered(ny) ==> heap_ordered(both)
            &&& forall|j: int|
                0 <= j < ny.len() && ny[j] is Some ==> (#[trigger] both[j + offset]) is Some
                    && both[j + offset]->0.value == ny[j]->0.value
            &&& forall|j: int| 0 <= j < nx.len() ==> #[trigger] both[j] == nx[j]
        }),
{
    let offset = nx.len() as int;
    let tail = shifted(ny, offset);
    let both = nx + tail;
    let ry2 = shifted_ring(ry, offset);
    let kids = kids_side_by_side(kx, ky, offset);
    lemma_values_concat(nx, tail);
    lemma_values_shifted(ny, offset);
    assert(ring(both, rx, nil())) by {
        assert forall|k: int| 0 <= k < rx.len() implies {
            &&& (#[trigger] both[rx[k] as int]) is Some
            &&& both[rx[k] as int]->0.parent == nx[rx[k] as int]->0.parent
            &&& both[rx[k] as int]->0.next == nx[rx[k] as int]->0.next
            &&& both[rx[k] as int]->0.prev == nx[rx[k] as int]->0.prev
        } by {
            assert(member_ok(nx, rx, nil(), k));
        }
        lemma_ring_frame(nx, both, rx, nil());
    }
    lemma_shifted_ring(nx, ny, ry, nil());
    assert forall|i: int, j: int| 0 <= i < rx.len() && 0 <= j < ry2.len() implies rx[i]
        != ry2[j] by {
        assert(member_ok(nx, rx, nil(), i));
        assert(member_ok(ny, ry, nil(), j));
    }
    assert forall|p: usize| live(both, p as int) implies #[trigger] family(
        both,
        p,
        kids[p as int],
    ) by {
        if p < offset {
            let f = kx[p as int];
            assert(family(nx, p, f));
            assert forall|k: int| 0 <= k < f.len() implies {
                &&& (#[trigger] both[f[k] as int]) is Some
                &&& both[f[k] as int] == nx[f[k] as int]
            } by {
                assert(member_ok(nx, f, at(p), k));
            }
            lemma_ring_frame(nx, both, f, at(p));
        } else {
            let q = (p - offset) as usize;
            let f = ky[q as int];
            let f2 = shifted_ring(f, offset);
            assert(both[p as int] == tail[q as int]);
            assert(live(ny, q as int));
            assert(family(ny, q, f));
            lemma_shifted_ring(nx, ny, f, at(q));
            assert(kids[p as int] == f2);
            assert forall|k: int| 0 <= k < f2.len() implies both[#[trigger] f2[k] as int]->0.degree
                < f2.len() by {
                assert(member_ok(ny, f, at(q), k));
                assert(both[f2[k] as int] == tail[f[k] as int]);
            }
            if f.len() > 0 {
                let ch = ny[q as int]->0.child.entry->0;
                let k = f.index_of(ch);
                assert(member_ok(ny, f, at(q), k));
                assert(f2[k] == (ch + offset) as usize);
            }
        }
    }
    assert forall|i: usize| live(both, i as int) implies #[trigger] placed(
        both,
        rx + ry2,
        kids,
        i,
    ) by {
        if i < offset {
            assert(placed(nx, rx, kx, i));
            match nx[i as int]->0.parent.entry {
                None => {
                    let k = rx.index_of(i);
                    assert((rx + ry2)[k] == i);
                },
                Some(p) => {},
            }
        } else {
            let q = (i - offset) as usize;
            assert(both[i as int] == tail[q as int]);
            assert(live(ny, q as int));
            assert(placed(ny, ry, ky, q));
            match ny[q as int]->0.parent.entry {
                None => {
                    let k = ry.index_of(q);
                    assert((rx + ry2)[rx.len() + k] == i);
                },
                Some(p) => {
                    let f = ky[p as int];
                    let k = f.index_of(q);
                    assert(family(ny, p, f));
                    assert(member_ok(ny, f, at(p), k));
                    assert(both[p + offset] == tail[p as int]);
                    assert(shifted_ring(f, offset)[k] == i);
                },
            }
        }
    }
    if heap_ordered(nx) && heap_ordered(ny) {
        assert forall|i: usize| live(both, i as int) implies #[trigger] above_parent(both, i) by {
            assert(placed(both, rx + ry2, kids, i));
            if i < offset {
                assert(above_parent(nx, i));
                assert(placed(nx, rx, kx, i));
            } else {
                let q = (i - offset) as usize;
                assert(both[i as int] == tail[q as int]);
                assert(above_parent(ny, q));
                assert(placed(ny, ry, ky, q));
                if ny[q as int]->0.parent.entry is Some {
                    let p = ny[q as int]->0.parent.entry->0;
                    assert(both[p + offset] == tail[p as int]);
                }
            }
        }
    }
    assert forall|j: int| 0 <= j < ny.len() && ny[j] is Some implies
        (#[trigger] both[j + offset]) is Some
        && both[j + offset]->0.value == ny[j]->0.value by {
        assert(both[j + offset] == tail[j]);
    }
}

/// Joining the two root rings of a forest of two rings gives a forest.
pub proof fn lemma_join_rings<T: PartialOrd>(
    nodes: Nodes<T>,
    a: Seq<usize>,
    b: Seq<usize>,
    kids: Seq<Seq<usize>>,
    x: Link,
    y: Link,
)
    requires
        forest_of_two(nodes, a, b, kids),
        x.entry is None <==> a.len() == 0,
        x.entry is Some ==> a.contains(x.entry->0),
        y.entry is None <==> b.len() == 0,
        y.entry is Some ==> b.contains(y.entry->0),
    ensures
        ({
            let after = spliced(nodes, x, y);
            let roots = roots_of_two(a, x, b, y);
            &&& forest(after, roots, kids)
            &&& same_but_neighbours(nodes, after)
            &&& forall|v: usize| roots.contains(v) <==> a.contains(v) || b.contains(v)
            &&& heap_ordered(nodes) ==> heap_ordered(after)
        }),
{
    let after = spliced(nodes, x, y);
    let roots = roots_of_two(a, x, b, y);
    lemma_spliced_same(nodes, x, y);
    assert forall|k: int| 0 <= k < a.len() implies
        live(nodes, #[trigger] a[k] as int) && nodes[a[k] as int]->0.parent
        == nil() by {
        assert(member_ok(nodes, a, nil(), k));
    }
    assert forall|k: int| 0 <= k < b.len() implies
        live(nodes, #[trigger] b[k] as int) && nodes[b[k] as int]->0.parent
        == nil() by {
        assert(member_ok(nodes, b, nil(), k));
    }
    if x.entry is Some && y.entry is Some {
        let a2 = ending_with(a, x.entry->0);
        let b2 = ending_with(b, y.entry->0);
        lemma_ending_with(nodes, a, nil(), x.entry->0);
        lemma_ending_with(nodes, b, nil(), y.entry->0);
        assert forall|i: int, j: int| 0 <= i < a2.len() && 0 <= j < b2.len() implies a2[i]
            != b2[j] by {
            assert(a2.contains(a2[i]));
            assert(b2.contains(b2[j]));
            assert(a[a.index_of(a2[i])] != b[b.index_of(b2[j])]);
        }
        lemma_splice(nodes, a2, b2, nil());
        assert forall|v: usize| roots.contains(v) <==> a.contains(v) || b.contains(v) by {
            if roots.contains(v) {
                let k = choose|k: int| 0 <= k < roots.len() && roots[k] == v;
                if k < a2.len() {
                    assert(a2.contains(a2[k]));
                } else {
                    assert(b2.contains(b2[k - a2.len()]));
                }
            }
            if a.contains(v) {
                assert(a2.contains(v));
                let k = choose|k: int| 0 <= k < a2.len() && a2[k] == v;
                assert(roots[k] == v);
            }
            if b.contains(v) {
                assert(b2.contains(v));
                let k = choose|k: int| 0 <= k < b2.len() && b2[k] == v;
                assert(roots[a2.len() + k] == v);
            }
        }
        assert forall|i: int|
            0 <= i < nodes.len() && !a.contains(i as usize) && !b.contains(
                i as usize,
            ) implies #[trigger] after[i] == nodes[i] by {
            assert(!a2.contains(i as usize));
            assert(!b2.contains(i as usize));
        }
    } else {
        assert(after == nodes);
        if x.entry is Some {
            assert(b =~= Seq::<usize>::empty());
        } else {
            assert(a =~= Seq::<usize>::empty());
        }
    }
    assert forall|i: usize| live(nodes, i as int) implies (roots.contains(i) <==> (a + b).contains(
        i,
    )) by {
        if (a + b).contains(i) {
            let k = (a + b).index_of(i);
            if k < a.len() {
                assert(a[k] == i);
            } else {
                assert(b[k - a.len()] == i);
            }
        }
        if a.contains(i) {
            assert((a + b)[a.index_of(i)] == i);
        }
        if b.contains(i) {
            assert((a + b)[a.len() + b.index_of(i)] == i);
        }
    }
    assert forall|p: usize| live(after, p as int) implies #[trigger] family(
        after,
        p,
        kids[p as int],
    ) by {
        let f = kids[p as int];
        assert(nodes[p as int] is Some);
        assert(family(nodes, p, f));
        assert forall|k: int| 0 <= k < f.len() implies (#[trigger] after[f[k] as int])
            == nodes[f[k] as int] && after[f[k] as int] is Some by {
            assert(member_ok(nodes, f, at(p), k));
            let v = f[k];
            if a.contains(v) {
                assert(a[a.index_of(v)] == v);
            }
            if b.contains(v) {
                assert(b[b.index_of(v)] == v);
            }
        }
        lemma_ring_frame(nodes, after, f, at(p));
    }
    assert forall|i: usize| live(after, i as int) implies #[trigger] placed(
        after,
        roots,
        kids,
        i,
    ) by {
        assert(nodes[i as int] is Some);
        assert(placed(nodes, a + b, kids, i));
    }
    if heap_ordered(nodes) {
        assert forall|j: usize| live(after, j as int) implies #[trigger] above_parent(after, j) by {
            assert(nodes[j as int] is Some);
            assert(above_parent(nodes, j));
            assert(placed(nodes, a + b, kids, j));
        }
    }
}

/// Of the least roots of two root rings, the lower is a least root of the
/// joined ring.
pub proof fn lemma_least_of_two<T: PartialOrd>(
    nodes: Nodes<T>,
    a: Seq<usize>,
    b: Seq<usize>,
    roots: Seq<usize>,
    x: usize,
    y: usize,
)
    requires
        strict_weak_order::<T>(),
        least_root(nodes, a, x),
        least_root(nodes, b, y),
        forall|v: usize| roots.contains(v) ==> a.contains(v) || b.contains(v),
    ensures
        least_root(
            nodes,
            roots,
            if lt(nodes[x as int]->0.value, nodes[y as int]->0.value) {
                x
            } else {
                y
            },
        ),
{
    let vx = nodes[x as int]->0.value;
    let vy = nodes[y as int]->0.value;
    let m = if lt(vx, vy) {
        x
    } else {
        y
    };
    assert forall|k: int| 0 <= k < roots.len() implies le(
        nodes[m as int]->0.value,
        nodes[#[trigger] roots[k] as int]->0.value,
    ) by {
        let v = roots[k];
        assert(roots.contains(v));
        let vv = nodes[v as int]->0.value;
        if a.contains(v) {
            assert(a[a.index_of(v)] == v);
            assert(le(vx, vv));
            if m == y {
                lemma_le_transitive(vy, vx, vv);
            }
        } else {
            assert(b[b.index_of(v)] == v);
            assert(le(vy, vv));
            if m == x {
                assert(!lt(vy, vx));
                lemma_le_transitive(vx, vy, vv);
            }
        }
    }
}

/// A least root stays one when it is looked up in an arena that holds the
/// same values, all moved `offset` slots up.
pub proof fn lemma_least_moved<T: PartialOrd>(
    before: Nodes<T>,
    after: Nodes<T>,
    roots: Seq<usize>,
    offset: int,
    m: usize,
)
    requires
        least_root(before, roots, m),
        roots.contains(m),
        0 <= offset,
        forall|k: int|
            0 <= k < roots.len() ==> roots[k] + offset <= usize::MAX && after[#[trigger] roots[k]
                + offset]->0.value == before[roots[k] as int]->0.value,
    ensures
        least_root(after, shifted_ring(roots, offset), (m + offset) as usize),
        shifted_ring(roots, offset).contains((m + offset) as usize),
{
    let r2 = shifted_ring(roots, offset);
    let km = roots.index_of(m);
    let m2 = (m + offset) as usize;
    assert(r2[km] == m2);
    assert(after[roots[km] + offset]->0.value == before[m as int]->0.value);
    assert(m2 as int == m + offset);
    assert forall|k: int| 0 <= k < r2.len() implies le(
        after[m2 as int]->0.value,
        after[#[trigger] r2[k] as int]->0.value,
    ) by {
        assert(after[roots[k] + offset]->0.value == before[roots[k] as int]->0.value);
        assert(r2[k] as int == roots[k] + offset);
        assert(le(before[m as int]->0.value, before[roots[k] as int]->0.value));
    }
}

/// The links of a forest stay inside its arena.
pub proof fn lemma_links_in_bounds<T>(nodes: Nodes<T>, roots: Seq<usize>, kids: Seq<Seq<usize>>)
    requires
        forest(nodes, roots, kids),
    ensures
        links_in_bounds(nodes),
{
    assert forall|i: int| #[trigger] live(nodes, i) implies {
        &&& link_in_bounds(nodes, nodes[i]->0.parent)
        &&& link_in_bounds(nodes, nodes[i]->0.next)
        &&& link_in_bounds(nodes, nodes[i]->0.prev)
        &&& link_in_bounds(nodes, nodes[i]->0.child)
    } by {
        let u = i as usize;
        assert(placed(nodes, roots, kids, u));
        assert(family(nodes, u, kids[i]));
        let f = kids[i];
        if f.len() > 0 {
            assert(member_ok(nodes, f, at(u), f.index_of(nodes[i]->0.child.entry->0)));
        }
        match nodes[i]->0.parent.entry {
            None => {
                let k = roots.index_of(u);
                assert(member_ok(nodes, roots, nil(), k));
                let k0 = if k == 0 {
                    roots.len() - 1
                } else {
                    k - 1
                };
                assert(member_ok(nodes, roots, nil(), k0));
                assert(member_ok(nodes, roots, nil(), succ(k, roots.len() as int)));
            },
            Some(p) => {
                let g = kids[p as int];
                assert(family(nodes, p, g));
                let k = g.index_of(u);
                assert(member_ok(nodes, g, at(p), k));
                let k0 = if k == 0 {
                    g.len() - 1
                } else {
                    k - 1
                };
                assert(member_ok(nodes, g, at(p), k0));
                assert(member_ok(nodes, g, at(p), succ(k, g.len() as int)));
            },
        }
    }
}

} // verus!
