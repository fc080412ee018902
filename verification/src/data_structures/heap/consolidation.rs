//! The bookkeeping of a consolidation pass: a table that files roots under
//! the number of their children, and the roots that are still to be
//! visited.

use super::arena::{at, live, nil, Link, Nodes};
use super::forest::{distinct_degrees, forest, least_root, member_ok, ring};
use crate::order::{le, lemma_le_reflexive, lemma_le_transitive, lt, strict_weak_order};
use vstd::prelude::*;

verus! {

/// Every filled entry of the table is a root, filed under the number of its
/// children.
pub open spec fn table_ok<T>(nodes: Nodes<T>, roots: Seq<usize>, table: Seq<Link>) -> bool {
    forall|d: int|
        0 <= d < table.len() && (#[trigger] table[d]).entry is Some ==> roots.contains(
            table[d].entry->0,
        ) && nodes[table[d].entry->0 as int]->0.degree == d
}

/// The root in slot `r` is in the table or still waits, at `from` or later,
/// among the roots to visit.
pub open spec fn accounted(table: Seq<Link>, pending: Seq<Link>, from: int, r: usize) -> bool {
    ||| exists|d: int| 0 <= d < table.len() && #[trigger] table[d] == at(r)
    ||| exists|j: int| from <= j < pending.len() && #[trigger] pending[j] == at(r)
}

/// The roots to visit from `from` on are roots, each listed once, and none
/// of them is in the table.
pub open spec fn waiting(
    roots: Seq<usize>,
    table: Seq<Link>,
    pending: Seq<Link>,
    from: int,
) -> bool {
    &&& forall|j: int, k: int|
        0 <= j < k < pending.len() ==> #[trigger] pending[j] != #[trigger] pending[k]
    &&& forall|j: int|
        from <= j < pending.len() ==> (#[trigger] pending[j]).entry is Some && roots.contains(
            pending[j].entry->0,
        )
    &&& forall|j: int, d: int|
        from <= j < pending.len() && 0 <= d < table.len() ==> #[trigger] pending[j]
            != #[trigger] table[d]
}

/// Between two visits: every root is in the table, under the number of its
/// children, or still to be visited.
pub open spec fn sorted_out<T>(
    nodes: Nodes<T>,
    roots: Seq<usize>,
    table: Seq<Link>,
    pending: Seq<Link>,
    from: int,
) -> bool {
    &&& table_ok(nodes, roots, table)
    &&& waiting(roots, table, pending, from)
    &&& forall|r: usize| roots.contains(r) ==> #[trigger] accounted(table, pending, from, r)
}

/// During a visit: as between visits, but for the root `link`, which is in
/// hand: it is neither in the table nor still to be visited.
pub open spec fn in_hand<T>(
    nodes: Nodes<T>,
    roots: Seq<usize>,
    table: Seq<Link>,
    pending: Seq<Link>,
    from: int,
    link: Link,
) -> bool {
    &&& table_ok(nodes, roots, table)
    &&& waiting(roots, table, pending, from)
    &&& link.entry is Some
    &&& roots.contains(link.entry->0)
    &&& forall|d: int| 0 <= d < table.len() ==> #[trigger] table[d] != link
    &&& forall|j: int| from <= j < pending.len() ==> #[trigger] pending[j] != link
    &&& forall|r: usize|
        roots.contains(r) ==> r == link.entry->0 || #[trigger] accounted(table, pending, from, r)
}

/// Before the first visit, with an empty table, all roots are to be visited.
pub proof fn lemma_all_waiting<T>(
    nodes: Nodes<T>,
    roots: Seq<usize>,
    walk: Seq<usize>,
    pending: Seq<Link>,
)
    requires
        walk.no_duplicates(),
        forall|v: usize| walk.contains(v) <==> roots.contains(v),
        pending.len() == walk.len(),
        forall|j: int| 0 <= j < pending.len() ==> #[trigger] pending[j] == at(walk[j]),
    ensures
        sorted_out(nodes, roots, Seq::<Link>::empty(), pending, 0),
{
    let table = Seq::<Link>::empty();
    assert forall|j: int| 0 <= j < pending.len() implies (#[trigger] pending[j]).entry is Some
        && roots.contains(pending[j].entry->0) by {
        assert(walk.contains(walk[j]));
    }
    assert forall|r: usize| roots.contains(r) implies #[trigger] accounted(
        table,
        pending,
        0,
        r,
    ) by {
        assert(walk.contains(r));
        let j = walk.index_of(r);
        assert(pending[j] == at(r));
    }
}

/// The root that is visited next is in hand.
pub proof fn lemma_taken<T>(
    nodes: Nodes<T>,
    roots: Seq<usize>,
    table: Seq<Link>,
    pending: Seq<Link>,
    from: int,
)
    requires
        sorted_out(nodes, roots, table, pending, from),
        0 <= from < pending.len(),
    ensures
        in_hand(nodes, roots, table, pending, from + 1, pending[from]),
{
    let link = pending[from];
    assert forall|r: usize| roots.contains(r) implies r == link.entry->0 || #[trigger] accounted(
        table,
        pending,
        from + 1,
        r,
    ) by {
        assert(accounted(table, pending, from, r));
        if !(exists|d: int| 0 <= d < table.len() && #[trigger] table[d] == at(r)) {
            let j = choose|j: int| from <= j < pending.len() && #[trigger] pending[j] == at(r);
            if j != from {
                assert(pending[j] == at(r));
            }
        }
    }
}

/// A table that has grown by empty entries serves as before.
pub proof fn lemma_grown<T>(
    nodes: Nodes<T>,
    roots: Seq<usize>,
    table: Seq<Link>,
    grown: Seq<Link>,
    pending: Seq<Link>,
    from: int,
    link: Link,
)
    requires
        in_hand(nodes, roots, table, pending, from, link),
        grown.len() >= table.len(),
        forall|d: int| 0 <= d < table.len() ==> grown[d] == table[d],
        forall|d: int| table.len() <= d < grown.len() ==> grown[d] == nil(),
    ensures
        in_hand(nodes, roots, grown, pending, from, link),
{
    assert forall|d: int| 0 <= d < grown.len() && (#[trigger] grown[d]).entry is Some implies
        roots.contains(
        grown[d].entry->0,
    ) && nodes[grown[d].entry->0 as int]->0.degree == d by {
        assert(table[d].entry is Some);
    }
    assert forall|j: int, d: int| from <= j < pending.len() && 0 <= d < grown.len() implies
        #[trigger] pending[j]
        != #[trigger] grown[d] by {
        if d < table.len() {
            assert(pending[j] != table[d]);
        }
    }
    assert forall|d: int| 0 <= d < grown.len() implies #[trigger] grown[d] != link by {
        if d < table.len() {
            assert(table[d] != link);
        }
    }
    assert forall|r: usize| roots.contains(r) implies r == link.entry->0 || #[trigger] accounted(
        grown,
        pending,
        from,
        r,
    ) by {
        assert(r == link.entry->0 || accounted(table, pending, from, r));
        if exists|d: int| 0 <= d < table.len() && #[trigger] table[d] == at(r) {
            let d = choose|d: int| 0 <= d < table.len() && #[trigger] table[d] == at(r);
            assert(grown[d] == at(r));
        }
    }
}

/// The root in hand, filed in the empty entry for the number of its
/// children, ends the visit.
pub proof fn lemma_filed<T>(
    nodes: Nodes<T>,
    roots: Seq<usize>,
    table: Seq<Link>,
    pending: Seq<Link>,
    from: int,
    link: Link,
)
    requires
        in_hand(nodes, roots, table, pending, from, link),
        nodes[link.entry->0 as int]->0.degree < table.len(),
        table[nodes[link.entry->0 as int]->0.degree as int] == nil(),
    ensures
        sorted_out(
            nodes,
            roots,
            table.update(nodes[link.entry->0 as int]->0.degree as int, link),
            pending,
            from,
        ),
{
    let degree = nodes[link.entry->0 as int]->0.degree as int;
    let filed = table.update(degree, link);
    assert forall|d: int| 0 <= d < filed.len() && (#[trigger] filed[d]).entry is Some implies
        roots.contains(
        filed[d].entry->0,
    ) && nodes[filed[d].entry->0 as int]->0.degree == d by {
        if d != degree {
            assert(table[d].entry is Some);
        }
    }
    assert forall|j: int, d: int| from <= j < pending.len() && 0 <= d < filed.len() implies
        #[trigger] pending[j]
        != #[trigger] filed[d] by {
        if d != degree {
            assert(pending[j] != table[d]);
        }
    }
    assert forall|r: usize| roots.contains(r) implies #[trigger] accounted(
        filed,
        pending,
        from,
        r,
    ) by {
        if r == link.entry->0 {
            assert(filed[degree] == at(r));
        } else {
            assert(accounted(table, pending, from, r));
            if exists|d: int| 0 <= d < table.len() && #[trigger] table[d] == at(r) {
                let d = choose|d: int| 0 <= d < table.len() && #[trigger] table[d] == at(r);
                assert(filed[d] == at(r));
            }
        }
    }
}

/// The root in hand and the root `other` that the table holds for the same
/// number of children are two roots.
pub proof fn lemma_met<T>(
    nodes: Nodes<T>,
    roots: Seq<usize>,
    kids: Seq<Seq<usize>>,
    table: Seq<Link>,
    pending: Seq<Link>,
    from: int,
    link: Link,
    other: Link,
)
    requires
        forest(nodes, roots, kids),
        in_hand(nodes, roots, table, pending, from, link),
        nodes[link.entry->0 as int]->0.degree < table.len(),
        other == table[nodes[link.entry->0 as int]->0.degree as int],
        other != nil(),
    ensures
        other.entry is Some,
        other != link,
        roots.contains(other.entry->0),
        live(nodes, link.entry->0 as int),
        live(nodes, other.entry->0 as int),
        nodes[other.entry->0 as int]->0.degree == nodes[link.entry->0 as int]->0.degree,
{
    let degree = nodes[link.entry->0 as int]->0.degree as int;
    assert(table[degree].entry is Some);
    assert(member_ok(nodes, roots, nil(), roots.index_of(link.entry->0)));
    assert(member_ok(nodes, roots, nil(), roots.index_of(other.entry->0)));
}

/// After the root in hand and the root that the table held for the same
/// number of children have been linked, the one that has stayed a root is in
/// hand.
pub proof fn lemma_linked<T>(
    nodes: Nodes<T>,
    roots: Seq<usize>,
    after: Nodes<T>,
    roots2: Seq<usize>,
    table: Seq<Link>,
    pending: Seq<Link>,
    from: int,
    link: Link,
    winner: Link,
    loser: Link,
)
    requires
        ring(nodes, roots, nil()),
        in_hand(nodes, roots, table, pending, from, link),
        nodes[link.entry->0 as int]->0.degree < table.len(),
        table[nodes[link.entry->0 as int]->0.degree as int].entry is Some,
        (winner == link && loser == table[nodes[link.entry->0 as int]->0.degree as int]) || (loser
            == link && winner == table[nodes[link.entry->0 as int]->0.degree as int]),
        forall|v: usize| roots2.contains(v) <==> roots.contains(v) && v != loser.entry->0,
        forall|j: int|
            live(nodes, j) && j != winner.entry->0 ==> (#[trigger] after[j])->0.degree
                == nodes[j]->0.degree,
    ensures
        in_hand(
            after,
            roots2,
            table.update(nodes[link.entry->0 as int]->0.degree as int, nil()),
            pending,
            from,
            winner,
        ),
{
    let degree = nodes[link.entry->0 as int]->0.degree as int;
    let other = table[degree];
    let cleared = table.update(degree, nil());
    let x = link.entry->0;
    let y = other.entry->0;
    assert(other != link);
    assert forall|d: int| 0 <= d < cleared.len() implies #[trigger] cleared[d] != at(x)
        && cleared[d] != at(y) by {
        if d != degree {
            assert(table[d] != at(x));
            if table[d] == at(y) {
                assert(table[d].entry is Some);
            }
        }
    }
    assert forall|d: int| 0 <= d < cleared.len() && (#[trigger] cleared[d]).entry is Some implies
        roots2.contains(
        cleared[d].entry->0,
    ) && after[cleared[d].entry->0 as int]->0.degree == d by {
        assert(d != degree);
        assert(table[d].entry is Some);
        let t = cleared[d].entry->0;
        assert(cleared[d] == at(t));
        assert(t != x && t != y);
        assert(roots.contains(t));
        assert(member_ok(nodes, roots, nil(), roots.index_of(t)));
        assert(after[t as int]->0.degree == nodes[t as int]->0.degree);
    }
    assert forall|j: int| from <= j < pending.len() implies (#[trigger] pending[j]).entry is Some
        && roots2.contains(pending[j].entry->0) && pending[j] != winner by {
        assert(pending[j] != at(x));
        assert(pending[j] != table[degree]);
        assert(roots.contains(pending[j].entry->0));
    }
    assert forall|j: int, d: int| from <= j < pending.len() && 0 <= d < cleared.len() implies
        #[trigger] pending[j]
        != #[trigger] cleared[d] by {
        if d != degree {
            assert(pending[j] != table[d]);
        } else {
            assert(pending[j].entry is Some);
        }
    }
    assert forall|r: usize| roots2.contains(r) implies r == winner.entry->0 || #[trigger] accounted(
        cleared,
        pending,
        from,
        r,
    ) by {
        assert(roots.contains(r) && r != loser.entry->0);
        if r != x {
            assert(accounted(table, pending, from, r));
            if exists|d: int| 0 <= d < table.len() && #[trigger] table[d] == at(r) {
                let d = choose|d: int| 0 <= d < table.len() && #[trigger] table[d] == at(r);
                if d != degree {
                    assert(cleared[d] == at(r));
                }
            }
        }
    }
}

/// After the last visit every root is in the table, so no two roots have
/// the same number of children.
pub proof fn lemma_all_filed<T>(
    nodes: Nodes<T>,
    roots: Seq<usize>,
    table: Seq<Link>,
    pending: Seq<Link>,
)
    requires
        roots.no_duplicates(),
        sorted_out(nodes, roots, table, pending, pending.len() as int),
    ensures
        distinct_degrees(nodes, roots),
        forall|r: usize|
            roots.contains(r) ==>
                exists|d: int| 0 <= d < table.len() && #[trigger] table[d] == at(r),
{
    assert forall|r: usize| roots.contains(r) implies exists|d: int|
        0 <= d < table.len() && #[trigger] table[d] == at(r) by {
        assert(accounted(table, pending, pending.len() as int, r));
    }
    assert forall|j: int, k: int|
        0 <= j < roots.len() && 0 <= k < roots.len() && j != k implies
            nodes[#[trigger] roots[j] as int]->0.degree
        != nodes[#[trigger] roots[k] as int]->0.degree by {
        assert(roots.contains(roots[j]) && roots.contains(roots[k]));
        let dj = choose|d: int| 0 <= d < table.len() && #[trigger] table[d] == at(roots[j]);
        let dk = choose|d: int| 0 <= d < table.len() && #[trigger] table[d] == at(roots[k]);
        assert(table[dj].entry is Some && table[dk].entry is Some);
    }
}

/// Of the roots in the first `upto` entries of the table, none is below the
/// root `best`, which is one of them unless there is none.
pub open spec fn least_so_far<T: PartialOrd>(
    nodes: Nodes<T>,
    roots: Seq<usize>,
    table: Seq<Link>,
    upto: int,
    best: Link,
) -> bool {
    &&& best.entry is Some ==> roots.contains(best.entry->0)
    &&& best.entry is None ==> forall|d: int| 0 <= d < upto ==> #[trigger] table[d] == nil()
    &&& strict_weak_order::<T>() && best.entry is Some ==> forall|d: int|
        0 <= d < upto && (#[trigger] table[d]).entry is Some ==> le(
            nodes[best.entry->0 as int]->0.value,
            nodes[table[d].entry->0 as int]->0.value,
        )
}

/// The least of the roots in the table so far and of the root in the next
/// entry is the least so far with that entry.
pub proof fn lemma_least_so_far<T: PartialOrd>(
    nodes: Nodes<T>,
    roots: Seq<usize>,
    table: Seq<Link>,
    upto: int,
    best: Link,
)
    requires
        ring(nodes, roots, nil()),
        table_ok(nodes, roots, table),
        least_so_far(nodes, roots, table, upto, best),
        0 <= upto < table.len(),
    ensures
        table[upto].entry is None ==> least_so_far(nodes, roots, table, upto + 1, best),
        table[upto].entry is Some ==> live(nodes, table[upto].entry->0 as int),
        best.entry is Some ==> live(nodes, best.entry->0 as int),
        table[upto].entry is Some && best.entry is None ==> least_so_far(
            nodes,
            roots,
            table,
            upto + 1,
            table[upto],
        ),
        table[upto].entry is Some && best.entry is Some ==> least_so_far(
            nodes,
            roots,
            table,
            upto + 1,
            if strict_weak_order::<T>() && !lt(
                nodes[table[upto].entry->0 as int]->0.value,
                nodes[best.entry->0 as int]->0.value,
            ) {
                best
            } else {
                table[upto]
            },
        ),
{
    let candidate = table[upto];
    if best.entry is Some {
        assert(member_ok(nodes, roots, nil(), roots.index_of(best.entry->0)));
    }
    if candidate.entry is Some {
        let t = candidate.entry->0;
        assert(member_ok(nodes, roots, nil(), roots.index_of(t)));
        if strict_weak_order::<T>() {
            let cv = nodes[t as int]->0.value;
            lemma_le_reflexive(cv);
            if best.entry is Some {
                let bv = nodes[best.entry->0 as int]->0.value;
                if lt(cv, bv) {
                    assert(!lt(bv, cv));
                    assert forall|d: int|
                        0 <= d < upto + 1 && (#[trigger] table[d]).entry is Some implies le(
                        cv,
                        nodes[table[d].entry->0 as int]->0.value,
                    ) by {
                        if d < upto {
                            lemma_le_transitive(cv, bv, nodes[table[d].entry->0 as int]->0.value);
                        }
                    }
                }
            }
        }
    }
}

/// The least of the roots in a table that holds every root is a least
/// root.
pub proof fn lemma_least_of_all<T: PartialOrd>(
    nodes: Nodes<T>,
    roots: Seq<usize>,
    table: Seq<Link>,
    best: Link,
)
    requires
        roots.len() > 0,
        least_so_far(nodes, roots, table, table.len() as int, best),
        forall|r: usize|
            roots.contains(r) ==>
                exists|d: int| 0 <= d < table.len() && #[trigger] table[d] == at(r),
    ensures
        best.entry is Some,
        roots.contains(best.entry->0),
        strict_weak_order::<T>() ==> least_root(nodes, roots, best.entry->0),
{
    assert(roots.contains(roots[0]));
    let d0 = choose|d: int| 0 <= d < table.len() && #[trigger] table[d] == at(roots[0]);
    assert(table[d0].entry is Some);
    if strict_weak_order::<T>() {
        assert forall|k: int| 0 <= k < roots.len() implies le(
            nodes[best.entry->0 as int]->0.value,
            nodes[#[trigger] roots[k] as int]->0.value,
        ) by {
            assert(roots.contains(roots[k]));
            let d = choose|d: int| 0 <= d < table.len() && #[trigger] table[d] == at(roots[k]);
            assert(table[d].entry is Some);
        }
    }
}

} // verus!
