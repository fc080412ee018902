//! The shape of a Fibonacci heap, stated over the contents of its arena.
//!
//! Siblings form a *ring*: a circular doubly linked list. The roots form one
//! ring, and the children of each node form another. A ring is described by
//! the sequence of its members, read along `next`; any rotation of that
//! sequence describes the same ring.

use super::arena::{
    at, listed, live, nil, shifted, with_next, with_parent, with_prev, Entry, Link, Nodes,
};
use crate::order::{is_minimum, le, lemma_le_reflexive, lemma_le_transitive, strict_weak_order};
use vstd::multiset::Multiset;
use vstd::prelude::*;

verus! {

/// The position that follows `k` on a cycle of `n` positions.
pub open spec fn succ(k: int, n: int) -> int {
    if k + 1 >= n {
        0
    } else {
        k + 1
    }
}

/// The member at position `k` of `s` is a node owned by `owner`, its `next`
/// is the member that follows, and that member's `prev` leads back.
pub open spec fn member_ok<T>(nodes: Nodes<T>, s: Seq<usize>, owner: Link, k: int) -> bool {
    &&& live(nodes, s[k] as int)
    &&& nodes[s[k] as int]->0.parent == owner
    &&& nodes[s[k] as int]->0.next == at(s[succ(k, s.len() as int)])
    &&& nodes[s[succ(k, s.len() as int)] as int]->0.prev == at(s[k])
}

/// `s` lists, along `next`, the members of one ring of nodes whose parent is
/// `owner`: starting from any member, `next` visits every member once and
/// returns, and `prev` walks the same cycle backwards.
pub open spec fn ring<T>(nodes: Nodes<T>, s: Seq<usize>, owner: Link) -> bool {
    &&& s.no_duplicates()
    &&& forall|k: int| 0 <= k < s.len() ==> #[trigger] member_ok(nodes, s, owner, k)
}

/// The slot reached from slot `i` by following `next` for `n` steps.
pub open spec fn walk<T>(nodes: Nodes<T>, i: usize, n: nat) -> usize
    decreases n,
{
    if n == 0 {
        i
    } else {
        walk(nodes, nodes[i as int]->0.next.entry->0, (n - 1) as nat)
    }
}

/// The slot reached from slot `i` by following `prev` for `n` steps.
pub open spec fn walk_back<T>(nodes: Nodes<T>, i: usize, n: nat) -> usize
    decreases n,
{
    if n == 0 {
        i
    } else {
        walk_back(nodes, nodes[i as int]->0.prev.entry->0, (n - 1) as nat)
    }
}

/// `s` read from position `k` on, wrapping around.
pub open spec fn rotated(s: Seq<usize>, k: int) -> Seq<usize> {
    s.subrange(k, s.len() as int) + s.subrange(0, k)
}

/// The node in slot `p` and the ring `c` of its children agree: `degree`
/// counts the children, `child` leads into the ring exactly when there is
/// one, and every child has fewer children than its parent.
pub open spec fn family<T>(nodes: Nodes<T>, p: usize, c: Seq<usize>) -> bool {
    &&& ring(nodes, c, at(p))
    &&& nodes[p as int]->0.degree == c.len()
    &&& c.len() == 0 ==> nodes[p as int]->0.child == nil()
    &&& c.len() > 0 ==> nodes[p as int]->0.child.entry is Some && c.contains(
        nodes[p as int]->0.child.entry->0,
    )
    &&& forall|k: int| 0 <= k < c.len() ==> nodes[#[trigger] c[k] as int]->0.degree < c.len()
}

/// The node in slot `i` is where its `parent` link says: among the roots if
/// it has no parent, else among the children of its parent.
pub open spec fn placed<T>(
    nodes: Nodes<T>,
    roots: Seq<usize>,
    kids: Seq<Seq<usize>>,
    i: usize,
) -> bool {
    match nodes[i as int]->0.parent.entry {
        None => roots.contains(i),
        Some(p) => live(nodes, p as int) && kids[p as int].contains(i),
    }
}

/// The nodes form a forest: the roots are one ring, the children of each
/// node are one ring, and every node is in the ring that its `parent` link
/// names. `roots` lists the root ring and `kids[p]` the children of `p`.
pub open spec fn forest<T>(nodes: Nodes<T>, roots: Seq<usize>, kids: Seq<Seq<usize>>) -> bool {
    &&& nodes.len() <= usize::MAX
    &&& kids.len() == nodes.len()
    &&& ring(nodes, roots, nil())
    &&& forall|p: usize| live(nodes, p as int) ==> #[trigger] family(nodes, p, kids[p as int])
    &&& forall|i: usize| live(nodes, i as int) ==> #[trigger] placed(nodes, roots, kids, i)
}

/// The node in slot `i` is not below its parent in value.
pub open spec fn above_parent<T: PartialOrd>(nodes: Nodes<T>, i: usize) -> bool {
    nodes[i as int]->0.parent.entry is Some ==> le(
        nodes[nodes[i as int]->0.parent.entry->0 as int]->0.value,
        nodes[i as int]->0.value,
    )
}

/// No node is below its parent in value.
pub open spec fn heap_ordered<T: PartialOrd>(nodes: Nodes<T>) -> bool {
    forall|i: usize| live(nodes, i as int) ==> #[trigger] above_parent(nodes, i)
}

/// No root is below the node in slot `m` in value.
pub open spec fn least_root<T: PartialOrd>(nodes: Nodes<T>, roots: Seq<usize>, m: usize) -> bool {
    forall|k: int|
        0 <= k < roots.len() ==>
            le(nodes[m as int]->0.value, nodes[#[trigger] roots[k] as int]->0.value)
}

/// No two roots have the same number of children.
pub open spec fn distinct_degrees<T>(nodes: Nodes<T>, roots: Seq<usize>) -> bool {
    forall|j: int, k: int|
        0 <= j < roots.len() && 0 <= k < roots.len() && j != k ==>
            nodes[#[trigger] roots[j] as int]->0.degree
            != nodes[#[trigger] roots[k] as int]->0.degree
}

/// The values held by the occupied slots, each as often as it is held.
pub open spec fn values<T>(nodes: Nodes<T>) -> Multiset<T>
    decreases nodes.len(),
{
    if nodes.len() == 0 {
        Multiset::empty()
    } else {
        match nodes.last() {
            Some(e) => values(nodes.drop_last()).insert(e.value),
            None => values(nodes.drop_last()),
        }
    }
}

/// The two arenas hold the same nodes up to `next` and `prev`.
pub open spec fn same_but_neighbours<T>(a: Nodes<T>, b: Nodes<T>) -> bool {
    &&& a.len() == b.len()
    &&& forall|i: int|
        0 <= i < a.len() ==> match #[trigger] a[i] {
            Some(e) => b[i] is Some && b[i]->0.value == e.value && b[i]->0.degree == e.degree
                && b[i]->0.parent == e.parent && b[i]->0.child == e.child,
            None => b[i] is None,
        }
}

/// The two arenas have the same slots occupied, with the same values.
pub open spec fn same_values<T>(a: Nodes<T>, b: Nodes<T>) -> bool {
    &&& a.len() == b.len()
    &&& forall|i: int|
        0 <= i < a.len() ==> match #[trigger] a[i] {
            Some(e) => b[i] is Some && b[i]->0.value == e.value,
            None => b[i] is None,
        }
}

/// The arena with no parent recorded in the nodes that `c` lists.
pub open spec fn orphaned<T>(nodes: Nodes<T>, c: Seq<usize>) -> Nodes<T> {
    Seq::new(
        nodes.len(),
        |j: int|
            if nodes[j] is Some && listed(c, j) {
                Some(Entry { parent: nil(), ..nodes[j]->0 })
            } else {
                nodes[j]
            },
    )
}

/// The first arena with the rings through `x` and `y` cut behind these two
/// nodes and joined crosswise: `x` is followed by what followed `y`, and `y` by
/// what followed `x`. Unchanged if either link is absent.
pub open spec fn spliced<T>(nodes: Nodes<T>, x: Link, y: Link) -> Nodes<T> {
    if x.entry is None || y.entry is None {
        nodes
    } else {
        let xn = nodes[x.entry->0 as int]->0.next;
        let yn = nodes[y.entry->0 as int]->0.next;
        with_prev(with_next(with_prev(with_next(nodes, x, yn), yn, x), y, xn), xn, y)
    }
}

/// The arena with the neighbours of `x` linked to each other, so that their
/// ring passes `x` by. The links of `x` itself stay as they are.
pub open spec fn unlinked<T>(nodes: Nodes<T>, x: Link) -> Nodes<T> {
    let p = nodes[x.entry->0 as int]->0.prev;
    let n = nodes[x.entry->0 as int]->0.next;
    with_prev(with_next(nodes, p, n), n, p)
}

/// A ring read from another position is the same ring.
pub proof fn lemma_rotate<T>(nodes: Nodes<T>, s: Seq<usize>, owner: Link, k: int)
    requires
        ring(nodes, s, owner),
        0 <= k <= s.len(),
    ensures
        ring(nodes, rotated(s, k), owner),
        rotated(s, k).len() == s.len(),
        forall|v: usize| rotated(s, k).contains(v) <==> s.contains(v),
        0 < k ==> rotated(s, k).last() == s[k - 1],
        k < s.len() ==> rotated(s, k)[0] == s[k],
{
    let r = rotated(s, k);
    let n = s.len() as int;
    assert forall|j: int| 0 <= j < n implies #[trigger] member_ok(nodes, r, owner, j) by {
        let i = if j + k < n {
            j + k
        } else {
            j + k - n
        };
        assert(r[j] == s[i]);
        assert(member_ok(nodes, s, owner, i));
        let j2 = succ(j, n);
        let i2 = succ(i, n);
        assert(r[j2] == s[i2]);
    }
    assert forall|i: int, j: int| 0 <= i < n && 0 <= j < n && i != j implies r[i] != r[j] by {
        let a = if i + k < n {
            i + k
        } else {
            i + k - n
        };
        let b = if j + k < n {
            j + k
        } else {
            j + k - n
        };
        assert(r[i] == s[a]);
        assert(r[j] == s[b]);
    }
    assert forall|v: usize| r.contains(v) <==> s.contains(v) by {
        if r.contains(v) {
            let j = choose|j: int| 0 <= j < r.len() && r[j] == v;
            let i = if j + k < n {
                j + k
            } else {
                j + k - n
            };
            assert(s[i] == v);
        }
        if s.contains(v) {
            let i = choose|i: int| 0 <= i < s.len() && s[i] == v;
            let j = if i >= k {
                i - k
            } else {
                i + n - k
            };
            assert(r[j] == v);
        }
    }
}

/// **Ring integrity.** In a ring, `n` steps along `next` lead from the
/// member at position `k` to the member `n` positions further on, counted
/// around the ring, and `n` steps along `prev` lead as far back. So a walk
/// from any member returns to it after as many steps as the ring has
/// members, having visited each of them once, and not before.
pub proof fn lemma_ring_walk<T>(nodes: Nodes<T>, s: Seq<usize>, owner: Link, k: int, n: nat)
    requires
        ring(nodes, s, owner),
        0 <= k < s.len(),
    ensures
        walk(nodes, s[k], n) == s[(k + n) % (s.len() as int)],
        walk_back(nodes, s[k], n) == s[(k - n) % (s.len() as int)],
        walk(nodes, s[k], s.len()) == s[k],
        walk_back(nodes, s[k], s.len()) == s[k],
        0 < n < s.len() ==> walk(nodes, s[k], n) != s[k] && walk_back(nodes, s[k], n) != s[k],
    decreases n,
{
    let len = s.len() as int;
    lemma_ring_steps(nodes, s, owner, k, n);
    lemma_ring_steps(nodes, s, owner, k, s.len());
    assert((k + len) % len == k) by {
        vstd::arithmetic::div_mod::lemma_mod_add_multiples_vanish(k, len);
        vstd::arithmetic::div_mod::lemma_small_mod(k as nat, len as nat);
    }
    assert((k - len) % len == k) by {
        vstd::arithmetic::div_mod::lemma_mod_sub_multiples_vanish(k, len);
        vstd::arithmetic::div_mod::lemma_small_mod(k as nat, len as nat);
    }
    if 0 < n < s.len() {
        let forth = (k + n) % len;
        let back = (k - n) % len;
        vstd::arithmetic::div_mod::lemma_mod_bound(k + n, len);
        vstd::arithmetic::div_mod::lemma_mod_bound(k - n, len);
        if k + n < len {
            vstd::arithmetic::div_mod::lemma_small_mod((k + n) as nat, len as nat);
        } else {
            vstd::arithmetic::div_mod::lemma_mod_sub_multiples_vanish(k + n, len);
            vstd::arithmetic::div_mod::lemma_small_mod((k + n - len) as nat, len as nat);
        }
        if k - n >= 0 {
            vstd::arithmetic::div_mod::lemma_small_mod((k - n) as nat, len as nat);
        } else {
            vstd::arithmetic::div_mod::lemma_mod_add_multiples_vanish(k - n, len);
            vstd::arithmetic::div_mod::lemma_small_mod((k - n + len) as nat, len as nat);
        }
        assert(forth != k);
        assert(back != k);
    }
}

/// Where `n` steps along a ring lead, forwards and backwards.
pub proof fn lemma_ring_steps<T>(nodes: Nodes<T>, s: Seq<usize>, owner: Link, k: int, n: nat)
    requires
        ring(nodes, s, owner),
        0 <= k < s.len(),
    ensures
        walk(nodes, s[k], n) == s[(k + n) % (s.len() as int)],
        walk_back(nodes, s[k], n) == s[(k - n) % (s.len() as int)],
    decreases n,
{
    let len = s.len() as int;
    if n == 0 {
        vstd::arithmetic::div_mod::lemma_small_mod(k as nat, len as nat);
    } else {
        let forth = succ(k, len);
        let back = if k == 0 {
            len - 1
        } else {
            k - 1
        };
        assert(member_ok(nodes, s, owner, k));
        assert(member_ok(nodes, s, owner, back));
        assert(succ(back, len) == k);
        lemma_ring_steps(nodes, s, owner, forth, (n - 1) as nat);
        lemma_ring_steps(nodes, s, owner, back, (n - 1) as nat);
        assert((forth + (n - 1)) % len == (k + n) % len) by {
            if forth == 0 {
                vstd::arithmetic::div_mod::lemma_mod_add_multiples_vanish(n - 1, len);
            }
        }
        assert((back - (n - 1)) % len == (k - n) % len) by {
            if k == 0 {
                vstd::arithmetic::div_mod::lemma_mod_add_multiples_vanish(-(n as int), len);
            }
        }
    }
}

/// The ring `s` read so that `x` comes last.
pub open spec fn ending_with(s: Seq<usize>, x: usize) -> Seq<usize> {
    rotated(s, s.index_of(x) + 1)
}

/// The ring `s` read so that `x` comes first.
pub open spec fn starting_with(s: Seq<usize>, x: usize) -> Seq<usize> {
    rotated(s, s.index_of(x))
}

/// Reading a ring so that a given member comes last gives the same ring.
pub proof fn lemma_ending_with<T>(nodes: Nodes<T>, s: Seq<usize>, owner: Link, x: usize)
    requires
        ring(nodes, s, owner),
        s.contains(x),
    ensures
        ring(nodes, ending_with(s, x), owner),
        ending_with(s, x).len() == s.len(),
        ending_with(s, x).last() == x,
        forall|v: usize| ending_with(s, x).contains(v) <==> s.contains(v),
{
    lemma_rotate(nodes, s, owner, s.index_of(x) + 1);
}

/// Reading a ring so that a given member comes first gives the same ring.
pub proof fn lemma_starting_with<T>(nodes: Nodes<T>, s: Seq<usize>, owner: Link, x: usize)
    requires
        ring(nodes, s, owner),
        s.contains(x),
    ensures
        ring(nodes, starting_with(s, x), owner),
        starting_with(s, x).len() == s.len(),
        starting_with(s, x)[0] == x,
        forall|v: usize| starting_with(s, x).contains(v) <==> s.contains(v),
{
    lemma_rotate(nodes, s, owner, s.index_of(x));
}

/// A ring stays a ring while its members keep their parent and neighbours.
pub proof fn lemma_ring_frame<T>(a: Nodes<T>, b: Nodes<T>, s: Seq<usize>, owner: Link)
    requires
        ring(a, s, owner),
        a.len() <= b.len(),
        forall|k: int|
            0 <= k < s.len() ==> {
                &&& (#[trigger] b[s[k] as int]) is Some
                &&& b[s[k] as int]->0.parent == a[s[k] as int]->0.parent
                &&& b[s[k] as int]->0.next == a[s[k] as int]->0.next
                &&& b[s[k] as int]->0.prev == a[s[k] as int]->0.prev
            },
    ensures
        ring(b, s, owner),
{
    assert forall|k: int| 0 <= k < s.len() implies #[trigger] member_ok(b, s, owner, k) by {
        assert(member_ok(a, s, owner, k));
        let k2 = succ(k, s.len() as int);
        assert(member_ok(a, s, owner, k2));
        assert(b[s[k] as int] is Some);
        assert(b[s[k2] as int] is Some);
    }
}

/// A node whose neighbours are itself is a ring of one.
pub proof fn lemma_ring_of_one<T>(nodes: Nodes<T>, i: usize, owner: Link)
    requires
        live(nodes, i as int),
        nodes[i as int]->0.parent == owner,
        nodes[i as int]->0.next == at(i),
        nodes[i as int]->0.prev == at(i),
    ensures
        ring(nodes, seq![i], owner),
{
    assert(member_ok(nodes, seq![i], owner, 0));
}

/// Splicing changes `next` and `prev` only.
pub proof fn lemma_spliced_same<T>(nodes: Nodes<T>, x: Link, y: Link)
    ensures
        same_but_neighbours(nodes, spliced(nodes, x, y)),
{
}

/// Unlinking changes `next` and `prev` only.
pub proof fn lemma_unlinked_same<T>(nodes: Nodes<T>, x: Link)
    ensures
        same_but_neighbours(nodes, unlinked(nodes, x)),
{
}

/// Two separate rings, cut behind their last members and joined crosswise,
/// are the one ring that lists the first and then the second. Nodes outside
/// the two rings are untouched.
pub proof fn lemma_splice<T>(nodes: Nodes<T>, a: Seq<usize>, b: Seq<usize>, owner: Link)
    requires
        ring(nodes, a, owner),
        ring(nodes, b, owner),
        a.len() > 0,
        b.len() > 0,
        forall|i: int, j: int| 0 <= i < a.len() && 0 <= j < b.len() ==> a[i] != b[j],
    ensures
        ring(spliced(nodes, at(a.last()), at(b.last())), a + b, owner),
        forall|i: int|
            0 <= i < nodes.len() && !a.contains(i as usize) && !b.contains(i as usize) ==> spliced(
                nodes,
                at(a.last()),
                at(b.last()),
            )[i] == nodes[i],
{
    let x = a.last();
    let y = b.last();
    let c = a + b;
    let na = a.len() as int;
    let nb = b.len() as int;
    let after = spliced(nodes, at(x), at(y));
    assert(member_ok(nodes, a, owner, na - 1));
    assert(member_ok(nodes, b, owner, nb - 1));
    assert(member_ok(nodes, a, owner, 0));
    assert(member_ok(nodes, b, owner, 0));
    assert(nodes[x as int]->0.next == at(a[0]));
    assert(nodes[y as int]->0.next == at(b[0]));
    assert forall|i: int, j: int| 0 <= i < c.len() && 0 <= j < c.len() && i != j implies c[i]
        != c[j] by {
        if i < na && j >= na {
            assert(a[i] != b[j - na]);
        }
        if j < na && i >= na {
            assert(a[j] != b[i - na]);
        }
    }
    assert forall|k: int| 0 <= k < c.len() implies #[trigger] member_ok(after, c, owner, k) by {
        let k2 = succ(k, c.len() as int);
        if k < na {
            assert(member_ok(nodes, a, owner, k));
            assert(c[k] == a[k]);
            assert(a[k] != b[0] && a[k] != b[nb - 1]);
            if k < na - 1 {
                assert(member_ok(nodes, a, owner, k + 1));
                assert(c[k2] == a[k + 1]);
                assert(a[k + 1] != b[0] && a[k + 1] != b[nb - 1]);
            } else {
                assert(c[k2] == b[0]);
            }
        } else {
            let j = k - na;
            assert(member_ok(nodes, b, owner, j));
            assert(c[k] == b[j]);
            assert(b[j] != a[0] && b[j] != a[na - 1]);
            if j < nb - 1 {
                assert(member_ok(nodes, b, owner, j + 1));
                assert(c[k2] == b[j + 1]);
                assert(b[j + 1] != a[0] && b[j + 1] != a[na - 1]);
            } else {
                assert(c[k2] == a[0]);
            }
        }
    }
    assert forall|i: int|
        0 <= i < nodes.len() && !a.contains(i as usize) && !b.contains(i as usize) implies after[i]
        == nodes[i] by {
        assert(a[0] != i as usize && a[na - 1] != i as usize);
        assert(b[0] != i as usize && b[nb - 1] != i as usize);
    }
}

/// A ring of two or more, with the neighbours of its last member linked to
/// each other, is the ring of the members before the last. Nodes outside the
/// ring are untouched.
pub proof fn lemma_unlink<T>(nodes: Nodes<T>, s: Seq<usize>, owner: Link)
    requires
        ring(nodes, s, owner),
        s.len() >= 2,
    ensures
        ring(unlinked(nodes, at(s.last())), s.drop_last(), owner),
        unlinked(nodes, at(s.last()))[s.last() as int] == nodes[s.last() as int],
        forall|i: int|
            0 <= i < nodes.len() && !s.contains(i as usize) ==> unlinked(nodes, at(s.last()))[i]
                == nodes[i],
{
    let n = s.len() as int;
    let x = s.last();
    let r = s.drop_last();
    let after = unlinked(nodes, at(x));
    assert(member_ok(nodes, s, owner, n - 1));
    assert(member_ok(nodes, s, owner, n - 2));
    assert(member_ok(nodes, s, owner, 0));
    assert(nodes[x as int]->0.next == at(s[0]));
    assert(nodes[x as int]->0.prev == at(s[n - 2]));
    assert(s[0] != x && s[n - 2] != x);
    assert forall|k: int| 0 <= k < r.len() implies #[trigger] member_ok(after, r, owner, k) by {
        assert(member_ok(nodes, s, owner, k));
        assert(r[k] == s[k]);
        assert(s[k] != x);
        if k < n - 2 {
            assert(member_ok(nodes, s, owner, k + 1));
            assert(r[k + 1] == s[k + 1]);
            assert(s[k + 1] != s[0]);
            assert(s[k] != s[n - 2]);
        }
    }
    assert forall|i: int| 0 <= i < nodes.len() && !s.contains(i as usize) implies after[i]
        == nodes[i] by {
        assert(s[0] != i as usize && s[n - 2] != i as usize);
    }
}

/// Clearing no parent changes nothing.
pub proof fn lemma_orphaned_none<T>(nodes: Nodes<T>)
    ensures
        orphaned(nodes, Seq::<usize>::empty()) == nodes,
{
    assert(orphaned(nodes, Seq::<usize>::empty()) =~= nodes);
}

/// Clearing the parent of the `k` first members of a ring and then that of
/// the next clears the parent of the `k + 1` first members.
pub proof fn lemma_orphaned_next<T>(nodes: Nodes<T>, c: Seq<usize>, owner: Link, k: int)
    requires
        ring(nodes, c, owner),
        0 <= k < c.len(),
    ensures
        with_parent(orphaned(nodes, c.take(k)), at(c[k]), nil()) == orphaned(nodes, c.take(k + 1)),
        orphaned(nodes, c.take(k))[c[k] as int] == nodes[c[k] as int],
        orphaned(nodes, c.take(c.len() as int)) == orphaned(nodes, c),
{
    let before = c.take(k);
    let after = c.take(k + 1);
    assert(member_ok(nodes, c, owner, k));
    assert(!listed(before, c[k] as int)) by {
        if listed(before, c[k] as int) {
            let t = choose|t: int| 0 <= t < before.len() && #[trigger] before[t] as int
                == c[k] as int;
            assert(c[t] == c[k]);
        }
    }
    assert forall|j: int| 0 <= j < nodes.len() implies (listed(after, j) <==> listed(before, j)
        || j == c[k] as int) by {
        if listed(after, j) {
            let t = choose|t: int| 0 <= t < after.len() && #[trigger] after[t] as int == j;
            if t < k {
                assert(before[t] as int == j);
            }
        }
        if listed(before, j) {
            let t = choose|t: int| 0 <= t < before.len() && #[trigger] before[t] as int == j;
            assert(after[t] as int == j);
        }
        if j == c[k] as int {
            assert(after[k] as int == j);
        }
    }
    assert(with_parent(orphaned(nodes, before), at(c[k]), nil()) =~= orphaned(nodes, after));
    assert(c.take(c.len() as int) =~= c);
}

/// A vacant last slot adds nothing to the values, an occupied one its value.
pub proof fn lemma_values_push<T>(nodes: Nodes<T>, slot: Option<Entry<T>>)
    ensures
        values(nodes.push(slot)) == match slot {
            Some(e) => values(nodes).insert(e.value),
            None => values(nodes),
        },
{
    assert(nodes.push(slot).drop_last() =~= nodes);
}

/// Replacing the content of one slot takes the old value out, if there was
/// one, and puts the new one in, if there is one.
pub proof fn lemma_values_update<T>(nodes: Nodes<T>, i: int, slot: Option<Entry<T>>)
    requires
        0 <= i < nodes.len(),
    ensures
        nodes[i] is Some ==> values(nodes).contains(nodes[i]->0.value),
        values(nodes.update(i, slot)) == {
            let rest = match nodes[i] {
                Some(e) => values(nodes).remove(e.value),
                None => values(nodes),
            };
            match slot {
                Some(e) => rest.insert(e.value),
                None => rest,
            }
        },
    decreases nodes.len(),
{
    let after = nodes.update(i, slot);
    if i == nodes.len() - 1 {
        assert(after.drop_last() =~= nodes.drop_last());
        let base = values(nodes.drop_last());
        match nodes[i] {
            Some(e) => {
                assert(base.insert(e.value).remove(e.value) =~= base);
            },
            None => {},
        }
    } else {
        lemma_values_update(nodes.drop_last(), i, slot);
        assert(after.drop_last() =~= nodes.drop_last().update(i, slot));
        let base = values(nodes.drop_last());
        let rest = match nodes[i] {
            Some(e) => base.remove(e.value),
            None => base,
        };
        let mid = match slot {
            Some(e) => rest.insert(e.value),
            None => rest,
        };
        assert(values(after.drop_last()) == mid);
        match nodes.last() {
            Some(l) => {
                match nodes[i] {
                    Some(e) => {
                        assert(base.contains(e.value));
                        assert(base.insert(l.value).remove(e.value) =~= base.remove(
                            e.value,
                        ).insert(l.value));
                        match slot {
                            Some(f) => {
                                assert(base.remove(e.value).insert(f.value).insert(l.value)
                                    =~= base.insert(l.value).remove(e.value).insert(f.value));
                            },
                            None => {},
                        }
                    },
                    None => {
                        match slot {
                            Some(f) => {
                                assert(base.insert(f.value).insert(l.value) =~= base.insert(
                                    l.value,
                                ).insert(f.value));
                            },
                            None => {},
                        }
                    },
                }
            },
            None => {},
        }
    }
}

/// Arenas with the same values in the same slots hold the same values.
pub proof fn lemma_values_same<T>(a: Nodes<T>, b: Nodes<T>)
    requires
        same_values(a, b),
    ensures
        values(a) == values(b),
    decreases a.len(),
{
    if a.len() > 0 {
        assert(a[a.len() - 1] == a.last());
        lemma_values_same(a.drop_last(), b.drop_last());
    }
}

/// The values of two arenas placed end to end are the values of both.
pub proof fn lemma_values_concat<T>(a: Nodes<T>, b: Nodes<T>)
    ensures
        values(a + b) == values(a).add(values(b)),
    decreases b.len(),
{
    if b.len() == 0 {
        assert(a + b =~= a);
        assert(values(a).add(values(b)) =~= values(a));
    } else {
        assert((a + b).drop_last() =~= a + b.drop_last());
        assert((a + b).last() == b.last());
        lemma_values_concat(a, b.drop_last());
        match b.last() {
            Some(e) => {
                assert(values(a).add(values(b.drop_last())).insert(e.value) =~= values(a).add(
                    values(b.drop_last()).insert(e.value),
                ));
            },
            None => {},
        }
    }
}

/// Moving links leaves the values as they are.
pub proof fn lemma_values_shifted<T>(nodes: Nodes<T>, offset: int)
    ensures
        values(shifted(nodes, offset)) == values(nodes),
    decreases nodes.len(),
{
    if nodes.len() > 0 {
        assert(shifted(nodes, offset).drop_last() =~= shifted(nodes.drop_last(), offset));
        lemma_values_shifted(nodes.drop_last(), offset);
    }
}

/// A value is among the values exactly if some occupied slot holds it.
pub proof fn lemma_values_contains<T>(nodes: Nodes<T>, v: T)
    ensures
        values(nodes).contains(v) <==> exists|i: int|
            live(nodes, i) && (#[trigger] nodes[i])->0.value == v,
    decreases nodes.len(),
{
    if nodes.len() > 0 {
        let rest = nodes.drop_last();
        lemma_values_contains(rest, v);
        let last = nodes.len() - 1;
        if values(nodes).contains(v) {
            if nodes.last() is Some && nodes.last()->0.value == v {
                assert(live(nodes, last) && nodes[last]->0.value == v);
            } else {
                assert(values(rest).contains(v));
                let i = choose|i: int| live(rest, i) && (#[trigger] rest[i])->0.value == v;
                assert(live(nodes, i) && nodes[i]->0.value == v);
            }
        }
        if exists|i: int| live(nodes, i) && (#[trigger] nodes[i])->0.value == v {
            let i = choose|i: int| live(nodes, i) && (#[trigger] nodes[i])->0.value == v;
            if i < last {
                assert(live(rest, i) && rest[i]->0.value == v);
            }
        }
    }
}

/// There are no more values than slots, and none if no slot is occupied.
pub proof fn lemma_values_len<T>(nodes: Nodes<T>)
    ensures
        values(nodes).len() <= nodes.len(),
        (forall|i: int| 0 <= i < nodes.len() ==> nodes[i] is None) ==> values(nodes).len() == 0,
    decreases nodes.len(),
{
    if nodes.len() > 0 {
        lemma_values_len(nodes.drop_last());
        if forall|i: int| 0 <= i < nodes.len() ==> nodes[i] is None {
            assert forall|i: int| 0 <= i < nodes.drop_last().len() implies
                nodes.drop_last()[i] is None by {
                assert(nodes[i] is None);
            }
        }
    }
}

/// Above every node there is a root that is not larger: follow the parents.
pub proof fn lemma_root_above<T: PartialOrd>(
    nodes: Nodes<T>,
    roots: Seq<usize>,
    kids: Seq<Seq<usize>>,
    i: usize,
) -> (k: int)
    requires
        forest(nodes, roots, kids),
        live(nodes, i as int),
    ensures
        0 <= k < roots.len(),
        strict_weak_order::<T>() && heap_ordered(nodes) ==> le(
            nodes[roots[k] as int]->0.value,
            nodes[i as int]->0.value,
        ),
    decreases usize::MAX - nodes[i as int]->0.degree,
{
    assert(placed(nodes, roots, kids, i));
    match nodes[i as int]->0.parent.entry {
        None => {
            let k = roots.index_of(i);
            if strict_weak_order::<T>() {
                lemma_le_reflexive(nodes[i as int]->0.value);
            }
            k
        },
        Some(p) => {
            assert(family(nodes, p, kids[p as int]));
            let j = kids[p as int].index_of(i);
            assert(nodes[kids[p as int][j] as int]->0.degree < kids[p as int].len());
            let k = lemma_root_above(nodes, roots, kids, p);
            if strict_weak_order::<T>() && heap_ordered(nodes) {
                assert(above_parent(nodes, i));
                lemma_le_transitive(
                    nodes[roots[k] as int]->0.value,
                    nodes[p as int]->0.value,
                    nodes[i as int]->0.value,
                );
            }
            k
        },
    }
}

/// The rings of children stay as they are while no node changes anything but
/// its neighbours, and nodes with a parent change nothing at all.
pub proof fn lemma_families_kept<T>(
    a: Nodes<T>,
    b: Nodes<T>,
    roots: Seq<usize>,
    kids: Seq<Seq<usize>>,
)
    requires
        forest(a, roots, kids),
        a.len() <= b.len(),
        forall|j: usize|
            #![trigger b[j as int]]
            live(a, j as int) ==> {
                &&& b[j as int] is Some
                &&& b[j as int]->0.degree == a[j as int]->0.degree
                &&& b[j as int]->0.child == a[j as int]->0.child
                &&& b[j as int]->0.parent == a[j as int]->0.parent
                &&& a[j as int]->0.parent != nil() ==> b[j as int] == a[j as int]
            },
    ensures
        forall|p: usize| live(a, p as int) ==> #[trigger] family(b, p, kids[p as int]),
{
    assert forall|p: usize| live(a, p as int) implies #[trigger] family(b, p, kids[p as int]) by {
        let c = kids[p as int];
        assert(family(a, p, c));
        assert forall|k: int| 0 <= k < c.len() implies {
            &&& (#[trigger] b[c[k] as int]) is Some
            &&& b[c[k] as int]->0.parent == a[c[k] as int]->0.parent
            &&& b[c[k] as int]->0.next == a[c[k] as int]->0.next
            &&& b[c[k] as int]->0.prev == a[c[k] as int]->0.prev
            &&& b[c[k] as int]->0.degree == a[c[k] as int]->0.degree
        } by {
            assert(member_ok(a, c, at(p), k));
        }
        lemma_ring_frame(a, b, c, at(p));
    }
}

/// In a forest, there are no roots exactly if there are no values.
pub proof fn lemma_empty<T: PartialOrd>(nodes: Nodes<T>, roots: Seq<usize>, kids: Seq<Seq<usize>>)
    requires
        forest(nodes, roots, kids),
    ensures
        roots.len() == 0 <==> values(nodes).len() == 0,
{
    if roots.len() == 0 {
        assert forall|i: int| 0 <= i < nodes.len() implies nodes[i] is None by {
            if nodes[i] is Some {
                let k = lemma_root_above(nodes, roots, kids, i as usize);
            }
        }
        lemma_values_len(nodes);
    } else {
        assert(member_ok(nodes, roots, nil(), 0));
        let r = roots[0] as int;
        lemma_values_contains(nodes, nodes[r]->0.value);
        assert(live(nodes, r) && nodes[r]->0.value == nodes[r]->0.value);
    }
}

/// In an ordered forest, a root that no root is below holds a least value.
pub proof fn lemma_least<T: PartialOrd>(
    nodes: Nodes<T>,
    roots: Seq<usize>,
    kids: Seq<Seq<usize>>,
    m: usize,
)
    requires
        forest(nodes, roots, kids),
        roots.contains(m),
    ensures
        live(nodes, m as int),
        values(nodes).contains(nodes[m as int]->0.value),
        strict_weak_order::<T>() && heap_ordered(nodes) && least_root(nodes, roots, m)
            ==> is_minimum(nodes[m as int]->0.value, values(nodes)),
{
    let least = nodes[m as int]->0.value;
    let at_m = roots.index_of(m);
    assert(member_ok(nodes, roots, nil(), at_m));
    lemma_values_contains(nodes, least);
    assert(live(nodes, m as int) && nodes[m as int]->0.value == least);
    if strict_weak_order::<T>() && heap_ordered(nodes) && least_root(nodes, roots, m) {
        assert forall|v: T| values(nodes).contains(v) implies le(least, v) by {
            lemma_values_contains(nodes, v);
            let i = choose|i: int| live(nodes, i) && (#[trigger] nodes[i])->0.value == v;
            let k = lemma_root_above(nodes, roots, kids, i as usize);
            lemma_le_transitive(least, nodes[roots[k] as int]->0.value, v);
        }
    }
}

/// Distinct slot numbers below `n` are at most `n` many.
pub proof fn lemma_distinct_slots(s: Seq<usize>, n: nat)
    requires
        s.no_duplicates(),
        forall|k: int| 0 <= k < s.len() ==> s[k] < n,
    ensures
        s.len() <= n,
    decreases n,
{
    if n == 0 {
        if s.len() > 0 {
            assert(s[0] < n);
        }
    } else {
        let top = (n - 1) as usize;
        if s.contains(top) {
            let i = s.index_of(top);
            let rest = s.remove(i);
            assert forall|k: int| 0 <= k < rest.len() implies rest[k] < n - 1 by {
                if k < i {
                    assert(rest[k] == s[k]);
                } else {
                    assert(rest[k] == s[k + 1]);
                }
            }
            assert forall|j: int, k: int| 0 <= j < rest.len() && 0 <= k < rest.len() && j != k
                implies rest[j] != rest[k] by {
                let j2 = if j < i {
                    j
                } else {
                    j + 1
                };
                let k2 = if k < i {
                    k
                } else {
                    k + 1
                };
                assert(rest[j] == s[j2] && rest[k] == s[k2]);
            }
            lemma_distinct_slots(rest, (n - 1) as nat);
        } else {
            assert forall|k: int| 0 <= k < s.len() implies s[k] < n - 1 by {
                assert(s.contains(s[k]));
            }
            lemma_distinct_slots(s, (n - 1) as nat);
        }
    }
}

} // verus!
