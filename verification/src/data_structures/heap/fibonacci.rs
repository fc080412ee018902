//! A Fibonacci heap: a mergeable priority queue. Insertion splices one node
//! into the ring of roots; extraction of a least value links roots until no
//! two of them have the same number of children, which keeps them as few as
//! the size has binary digits; merging moves the nodes of one heap into the
//! arena of the other and splices the two rings of roots.

use super::arena::{
    at, live, nil, occupied, shifted, with_next, with_parent, with_prev, Arena, Link, Nodes,
};
use super::forest::{
    distinct_degrees, ending_with, family, forest, heap_ordered, least_root, lemma_empty,
    lemma_least, lemma_orphaned_next, lemma_orphaned_none, lemma_spliced_same, lemma_starting_with,
    lemma_unlinked_same, lemma_values_len, lemma_values_same, member_ok, orphaned, ring, rotated,
    spliced, starting_with, succ, unlinked, values,
};
use super::binomial::{
    full_trees, lemma_adopt_weight, lemma_count_of_roots, lemma_insert_weight, lemma_merge_weight,
    lemma_promote_weight, lemma_tree_within_weight, lemma_weight_rotated,
};
use super::consolidation::{
    in_hand, least_so_far, lemma_all_filed, lemma_all_waiting, lemma_filed, lemma_grown,
    lemma_least_of_all, lemma_least_so_far, lemma_linked, lemma_met, lemma_taken, sorted_out,
    table_ok,
};
use super::extraction::{
    entry_without, lemma_promote_children, lemma_unlink_root, promoted, roots_joined, without_root,
};
use super::insertion::{kids_with, lemma_insert_root, roots_with};
use super::linking::{adopted, joined_children, kids_adopted, lemma_adopt, lemma_room_for_child};
use super::merging::{
    kids_side_by_side, lemma_join_rings, lemma_least_moved, lemma_least_of_two,
    lemma_links_in_bounds, lemma_side_by_side, roots_of_two, shifted_ring,
};
use crate::order::{comparison_is_specified, is_minimum, le, lt, strict_weak_order};
use vstd::arithmetic::power2::{lemma2_to64, pow2};
use vstd::multiset::Multiset;
use vstd::prelude::*;

verus! {

/// A priority queue that hands out a least value first.
///
/// The values are the nodes of a forest of trees in which no node is below
/// its parent. The roots of the trees form a ring, as do the children of each
/// node; `min` is the way into the root ring and refers to a least root.
pub struct FibonacciHeap<T: PartialOrd> {
    size: usize,
    min: Link,
    arena: Arena<T>,
    roots: Ghost<Seq<usize>>,
    kids: Ghost<Seq<Seq<usize>>>,
}

impl<T: PartialOrd> View for FibonacciHeap<T> {
    type V = Multiset<T>;

    /// The values in the heap, each as often as it was pushed and not yet
    /// popped.
    closed spec fn view(&self) -> Multiset<T> {
        values(self.arena@)
    }
}

impl<T: PartialOrd> FibonacciHeap<T> {
    /// The heap is well formed: its nodes form a forest of intact rings and
    /// full trees, `size` counts them, `min` refers to a root unless there
    /// is none, and, where `<` is a strict weak order, no node is below its
    /// parent and no root is below `min`.
    pub closed spec fn wf(&self) -> bool {
        &&& self.shaped()
        &&& self.min.entry is None <==> self.roots@.len() == 0
        &&& self.min.entry is Some ==> self.roots@.contains(self.min.entry->0)
        &&& strict_weak_order::<T>() && self.min.entry is Some ==> least_root(
            self.arena@,
            self.roots@,
            self.min.entry->0,
        )
    }

    /// Well formed but for `min`.
    closed spec fn shaped(&self) -> bool {
        &&& self.arena.wf()
        &&& forest(self.arena@, self.roots@, self.kids@)
        &&& self.size == values(self.arena@).len()
        &&& full_trees(self.arena@, self.roots@, self.kids@, self.size as int)
        &&& strict_weak_order::<T>() ==> heap_ordered(self.arena@)
    }

    /// No two roots have the same number of children.
    pub closed spec fn consolidated(&self) -> bool {
        distinct_degrees(self.arena@, self.roots@)
    }

    /// The nodes of the heap, slot by slot.
    pub closed spec fn nodes(&self) -> Nodes<T> {
        self.arena@
    }

    /// The slots of the roots, in the order of their ring.
    pub closed spec fn root_ring(&self) -> Seq<usize> {
        self.roots@
    }

    /// For each slot, the slots of the children of its node, in the order
    /// of their ring.
    pub closed spec fn child_rings(&self) -> Seq<Seq<usize>> {
        self.kids@
    }

    /// The slots of the roots, in the order of their ring, read from the
    /// least root on.
    pub closed spec fn roots_from_min(&self) -> Seq<usize> {
        match self.min.entry {
            Some(m) => starting_with(self.roots@, m),
            None => Seq::empty(),
        }
    }

    /// **Ring integrity.** The nodes of a well-formed heap are a forest: the
    /// roots are one intact ring, the children of each node are one intact
    /// ring of as many nodes as the node's degree says, and every node is in
    /// the ring that its parent link names. The values of the heap are the
    /// values of the nodes, and `size` counts them. Every tree is full: it
    /// holds two to the power of the degree of its root many values.
    pub proof fn lemma_shape(&self)
        requires
            self.wf(),
        ensures
            forest(self.nodes(), self.root_ring(), self.child_rings()),
            full_trees(
                self.nodes(),
                self.root_ring(),
                self.child_rings(),
                self.spec_size() as int,
            ),
            self@ == values(self.nodes()),
            self.spec_size() == self@.len(),
            self.consolidated() <==> distinct_degrees(self.nodes(), self.root_ring()),
            strict_weak_order::<T>() ==> heap_ordered(self.nodes()),
    {
    }

    /// **Few roots.** A consolidated heap has no more roots than its size
    /// has binary digits: two to the power of the number of its roots is at
    /// most its size plus one.
    pub proof fn lemma_few_roots(&self)
        requires
            self.wf(),
            self.consolidated(),
        ensures
            pow2(self.root_ring().len()) <= self.spec_size() + 1,
    {
        lemma_count_of_roots(self.arena@, self.roots@, self.size as int);
    }

    /// The numbers of children of the roots, found by walking the root ring
    /// once around from the least root. No number occurs twice if the heap
    /// is consolidated.
    pub fn root_degrees(&self) -> (degrees: Vec<usize>)
        requires
            self.wf(),
        ensures
            degrees@.len() == self.root_ring().len(),
            degrees@.len() == self.roots_from_min().len(),
            forall|k: int|
                0 <= k < degrees@.len() ==> #[trigger] degrees@[k]
                    == self.nodes()[self.roots_from_min()[k] as int]->0.degree,
            forall|k: int|
                0 <= k < degrees@.len() ==> pow2(#[trigger] degrees@[k] as nat)
                    <= self.spec_size(),
            self.consolidated() ==> degrees@.no_duplicates(),
    {
        let links = self.root_links();
        let ghost walk = self.roots_from_min();
        proof {
            if self.min.entry is Some {
                lemma_starting_with(self.arena@, self.roots@, nil(), self.min.entry->0);
            }
        }
        let mut degrees: Vec<usize> = Vec::new();
        let mut i: usize = 0;
        while i < links.len()
            invariant
                i <= links@.len(),
                links@.len() == walk.len(),
                walk == self.roots_from_min(),
                self.min.entry is Some ==> ring(self.arena@, walk, nil()),
                self.min.entry is None ==> walk.len() == 0,
                forall|j: int| 0 <= j < links@.len() ==> #[trigger] links@[j] == at(walk[j]),
                degrees@.len() == i,
                forall|k: int|
                    0 <= k < i ==> #[trigger] degrees@[k] == self.arena@[walk[k] as int]->0.degree,
            decreases links@.len() - i,
        {
            proof {
                assert(member_ok(self.arena@, walk, nil(), i as int));
            }
            degrees.push(links[i].get_degree(&self.arena));
            i += 1;
        }
        proof {
            if self.min.entry is Some {
                lemma_weight_rotated(
                    self.arena@,
                    self.roots@,
                    self.roots@.index_of(self.min.entry->0),
                );
                assert forall|k: int| 0 <= k < degrees@.len() implies pow2(
                    #[trigger] degrees@[k] as nat,
                ) <= self.size by {
                    lemma_tree_within_weight(self.arena@, walk, k);
                }
            }
            if self.consolidated() && self.min.entry is Some {
                assert forall|i: int, j: int|
                    0 <= i < degrees@.len() && 0 <= j < degrees@.len() && i != j implies degrees@[i]
                    != degrees@[j] by {
                    let a = walk[i];
                    let b = walk[j];
                    assert(walk.contains(a) && walk.contains(b));
                    let ia = self.roots@.index_of(a);
                    let ib = self.roots@.index_of(b);
                    assert(self.roots@[ia] == a && self.roots@[ib] == b);
                    assert(ia != ib);
                }
            }
        }
        degrees
    }

    /// An empty heap.
    pub fn new() -> (heap: FibonacciHeap<T>)
        ensures
            heap.wf(),
            heap@ == Multiset::<T>::empty(),
            heap.spec_size() == 0,
            heap.root_ring().len() == 0,
    {
        FibonacciHeap {
            size: 0,
            min: Link::none(),
            arena: Arena::new(),
            roots: Ghost(Seq::empty()),
            kids: Ghost(Seq::empty()),
        }
    }

    /// A least value of the heap, or `None` if the heap is empty.
    pub fn peek_min(&self) -> (least: Option<&T>)
        requires
            self.wf(),
        ensures
            least is None <==> self@.len() == 0,
            least is Some ==> self@.contains(*least->0),
            least is Some && strict_weak_order::<T>() ==> is_minimum(*least->0, self@),
    {
        proof {
            lemma_empty(self.arena@, self.roots@, self.kids@);
            if self.min.entry is Some {
                lemma_least(self.arena@, self.roots@, self.kids@, self.min.entry->0);
            }
        }
        self.min.borrow(&self.arena)
    }

    /// A least value of the heap, or `None` if the heap is empty.
    pub fn min(&self) -> (least: Option<&T>)
        requires
            self.wf(),
        ensures
            least is None <==> self@.len() == 0,
            least is Some ==> self@.contains(*least->0),
            least is Some && strict_weak_order::<T>() ==> is_minimum(*least->0, self@),
    {
        self.peek_min()
    }

    /// Whether the heap holds no value.
    pub fn is_empty(&self) -> (b: bool)
        requires
            self.wf(),
        ensures
            b == (self@.len() == 0),
            b == (self.spec_size() == 0),
    {
        proof {
            lemma_empty(self.arena@, self.roots@, self.kids@);
        }
        self.min.is_none()
    }

    /// The number of values in the heap, as recorded.
    pub closed spec fn spec_size(&self) -> usize {
        self.size
    }

    /// The number of values in the heap.
    #[verifier::when_used_as_spec(spec_size)]
    pub fn size(&self) -> (n: usize)
        requires
            self.wf(),
        ensures
            n == self@.len(),
            n == self.spec_size(),
    {
        self.size
    }

    /// Joins the ring through `x` and the ring through `y` into one ring and
    /// returns the way into it: of `x` and `y` the one with the lower value,
    /// `y` if neither is lower. If one of the two is absent, nothing changes
    /// and the other is returned.
    pub fn merge_entries(arena: &mut Arena<T>, x: Link, y: Link) -> (entry: Link)
        requires
            old(arena).wf(),
            x.entry is Some ==> occupied(old(arena)@, x),
            y.entry is Some ==> occupied(old(arena)@, y),
        ensures
            final(arena).wf(),
            final(arena)@ == spliced(old(arena)@, x, y),
            x.entry is None ==> entry == y,
            y.entry is None ==> entry == x,
            entry == x || entry == y,
            comparison_is_specified::<T>() && x.entry is Some && y.entry is Some ==> entry == if lt(
                old(arena)@[x.entry->0 as int]->0.value,
                old(arena)@[y.entry->0 as int]->0.value,
            ) {
                x
            } else {
                y
            },
    {
        if x.is_none() && y.is_none() {
            Link::none()
        } else if !x.is_none() && y.is_none() {
            x
        } else if x.is_none() && !y.is_none() {
            y
        } else {
            let x_next = x.get_next(arena);
            let y_next = y.get_next(arena);
            x.set_next(arena, &y_next);
            y_next.set_prev(arena, &x);
            y.set_next(arena, &x_next);
            x_next.set_prev(arena, &y);
            if x.less_than(arena, &y) {
                x
            } else {
                y
            }
        }
    }

    /// Removes a least value from the heap and returns it, or returns `None`
    /// and changes nothing if the heap is empty. Afterwards no two roots
    /// have the same number of children, so that there are no more roots
    /// than the size has binary digits.
    pub fn pop(&mut self) -> (least: Option<T>)
        requires
            old(self).wf(),
        ensures
            final(self).wf(),
            final(self).consolidated(),
            pow2(final(self).root_ring().len()) <= final(self).spec_size() + 1,
            least is None <==> old(self)@.len() == 0,
            least is None ==> *final(self) == *old(self),
            least is Some ==> old(self)@.contains(least->0) && final(self)@ == old(self)@.remove(
                least->0,
            ) && final(self).spec_size() == old(self).spec_size() - 1,
            least is Some && strict_weak_order::<T>() ==> is_minimum(least->0, old(self)@),
    {
        proof {
            lemma_empty(self.arena@, self.roots@, self.kids@);
            lemma2_to64();
        }
        if self.is_empty() {
            return None;
        }
        let min = self.min;
        let ghost m = min.entry->0;
        let ghost n0 = self.arena@;
        let ghost roots0 = self.roots@;
        let ghost kids0 = self.kids@;
        let ghost rest = ending_with(roots0, m).drop_last();
        proof {
            lemma_empty(n0, roots0, kids0);
            lemma_least(n0, roots0, kids0, m);
            lemma_unlink_root(n0, roots0, kids0, m);
        }
        self.size -= 1;
        // The least root leaves the ring of roots.
        self.min = Link::none();
        let min_next = min.get_next(&self.arena);
        if !min_next.are_same(&min) {
            let min_prev = min.get_prev(&self.arena);
            min_prev.set_next(&mut self.arena, &min_next);
            min_next.set_prev(&mut self.arena, &min_prev);
            self.min = min_next;
        }
        let ghost n1 = self.arena@;
        assert(n1 == without_root(n0, roots0, m));
        assert(self.min == entry_without(rest));
        let min_child = min.get_child(&self.arena);
        let ghost c = if min_child.entry is Some {
            starting_with(kids0[m as int], min_child.entry->0)
        } else {
            Seq::<usize>::empty()
        };
        proof {
            assert(family(n1, m, kids0[m as int]));
            if min_child.entry is Some {
                lemma_starting_with(n1, kids0[m as int], at(m), min_child.entry->0);
            } else {
                assert(kids0[m as int] =~= Seq::<usize>::empty());
            }
        }
        // Its children become roots.
        Self::release(&mut self.arena, min_child, Ghost(c), Ghost(at(m)));
        let new_min = self.min;
        proof {
            if rest.len() > 0 {
                assert(member_ok(n1, rest, nil(), 0));
            }
            if c.len() > 0 {
                assert(member_ok(n1, c, at(m), 0));
            }
            assert(n1[m as int]->0.child == min_child);
            lemma_promote_children(n1, rest, kids0, m, c);
            if min_child.entry is Some {
                assert(c == rotated(kids0[m as int], kids0[m as int].index_of(min_child.entry->0)));
            } else {
                assert(c =~= rotated(kids0[m as int], 0));
            }
            lemma_promote_weight(n0, roots0, kids0, m, c, old(self).size as int);
        }
        self.min = Self::merge_entries(&mut self.arena, new_min, min_child);
        // The node leaves the arena, and its value the heap.
        let value = min.into_value(&mut self.arena);
        proof {
            assert(self.arena@ == promoted(n1, rest, c, m));
            self.roots = Ghost(roots_joined(rest, c));
            lemma_values_same(n0, n1);
            lemma_empty(self.arena@, self.roots@, self.kids@);
            if rest.len() > 0 {
                assert(self.roots@.contains(rest[0])) by {
                    assert(rest.contains(rest[0]));
                }
            }
            if c.len() > 0 {
                assert(self.roots@.contains(c[0])) by {
                    assert(c.contains(c[0]));
                }
            }
        }
        if self.size == 0 {
            return value;
        }
        self.consolidate();
        value
    }

    /// Clears the parent of every node of the ring `c`, which `first` leads
    /// into.
    fn release(arena: &mut Arena<T>, first: Link, Ghost(c): Ghost<Seq<usize>>, Ghost(owner): Ghost<
        Link,
    >)
        requires
            old(arena).wf(),
            ring(old(arena)@, c, owner),
            c.len() == 0 ==> first == nil(),
            c.len() > 0 ==> first == at(c[0]),
        ensures
            final(arena).wf(),
            final(arena)@ == orphaned(old(arena)@, c),
    {
        proof {
            lemma_orphaned_none(arena@);
        }
        if !first.is_none() {
            let mut current = first;
            let ghost mut k: int = 0;
            assert(c.take(0) =~= Seq::<usize>::empty());
            loop
                invariant_except_break
                    0 <= k < c.len(),
                    current == at(c[k]),
                    arena@ == orphaned(old(arena)@, c.take(k)),
                invariant
                    arena.wf(),
                    ring(old(arena)@, c, owner),
                    first == at(c[0]),
                ensures
                    arena@ == orphaned(old(arena)@, c),
                decreases c.len() - k,
            {
                proof {
                    assert(member_ok(old(arena)@, c, owner, k));
                    lemma_orphaned_next(old(arena)@, c, owner, k);
                }
                current.set_parent(arena, &Link::none());
                current = current.get_next(arena);
                proof {
                    k = k + 1;
                    if k < c.len() {
                        lemma_orphaned_next(old(arena)@, c, owner, k);
                    }
                }
                if current.are_same(&first) {
                    break ;
                }
            }
        } else {
            assert(c =~= Seq::<usize>::empty());
        }
    }

    /// Makes the root `loser` a child of the root `winner`.
    fn adopt(&mut self, winner: Link, loser: Link)
        requires
            old(self).shaped(),
            winner.entry is Some,
            loser.entry is Some,
            winner != loser,
            old(self).roots@.contains(winner.entry->0),
            old(self).roots@.contains(loser.entry->0),
            old(self).arena@[loser.entry->0 as int]->0.degree
                == old(self).arena@[winner.entry->0 as int]->0.degree,
            strict_weak_order::<T>() ==> le(
                old(self).arena@[winner.entry->0 as int]->0.value,
                old(self).arena@[loser.entry->0 as int]->0.value,
            ),
        ensures
            final(self).shaped(),
            final(self)@ == old(self)@,
            final(self).size == old(self).size,
            final(self).min == old(self).min,
            final(self).arena@.len() == old(self).arena@.len(),
            final(self).roots@.len() == old(self).roots@.len() - 1,
            forall|v: usize|
                final(self).roots@.contains(v) <==> old(self).roots@.contains(v) && v
                    != loser.entry->0,
            final(self).arena@[winner.entry->0 as int]->0.degree
                == old(self).arena@[winner.entry->0 as int]->0.degree + 1,
            forall|j: int|
                live(old(self).arena@, j) && j != winner.entry->0 ==> (
                #[trigger] final(self).arena@[j])->0.degree == old(self).arena@[j]->0.degree,
    {
        let ghost n0 = self.arena@;
        let ghost w = winner.entry->0;
        let ghost l = loser.entry->0;
        proof {
            lemma_room_for_child(n0, self.roots@, self.kids@, w, l);
        }
        let next = loser.get_next(&self.arena);
        let prev = loser.get_prev(&self.arena);
        prev.set_next(&mut self.arena, &next);
        next.set_prev(&mut self.arena, &prev);
        assert(self.arena@ == unlinked(n0, loser));
        let ghost n1 = self.arena@;
        proof {
            lemma_unlinked_same(n0, loser);
        }
        loser.set_prev(&mut self.arena, &loser);
        loser.set_next(&mut self.arena, &loser);
        loser.set_parent(&mut self.arena, &winner);
        let child = winner.get_child(&self.arena);
        assert(child == n0[w as int]->0.child);
        let entry = Self::merge_entries(&mut self.arena, child, loser);
        assert(self.arena@ == joined_children(n1, w, l));
        let ghost n4 = self.arena@;
        proof {
            lemma_spliced_same(
                with_parent(with_next(with_prev(n1, loser, loser), loser, loser), loser, winner),
                child,
                loser,
            );
            assert(n4[w as int] is Some && n4[w as int]->0.degree == n0[w as int]->0.degree);
        }
        winner.set_child(&mut self.arena, &entry);
        winner.inc_degree(&mut self.arena);
        proof {
            assert(self.arena@ == adopted(n0, w, l, entry));
            lemma_adopt(n0, self.roots@, self.kids@, w, l, entry);
            lemma_adopt_weight(n0, self.roots@, self.kids@, w, l, entry, self.size as int);
            lemma_values_same(n0, self.arena@);
            self.kids = Ghost(kids_adopted(n0, self.kids@, w, l));
            self.roots = Ghost(ending_with(self.roots@, l).drop_last());
        }
    }

    /// Makes `table` long enough to have an entry for `degree`.
    fn make_room(table: &mut Vec<Link>, degree: usize)
        ensures
            final(table)@.len() > degree,
            final(table)@.len() >= old(table)@.len(),
            forall|d: int| 0 <= d < old(table)@.len() ==> final(table)@[d] == old(table)@[d],
            forall|d: int| old(table)@.len() <= d < final(table)@.len() ==>
                final(table)@[d] == nil(),
    {
        while degree >= table.len()
            invariant
                table@.len() >= old(table)@.len(),
                forall|d: int| 0 <= d < old(table)@.len() ==> table@[d] == old(table)@[d],
                forall|d: int| old(table)@.len() <= d < table@.len() ==> table@[d] == nil(),
            decreases degree + 1 - table.len(),
        {
            table.push(Link::none());
        }
    }

    /// The roots, found by walking the root ring once around from the
    /// least root.
    fn root_links(&self) -> (links: Vec<Link>)
        requires
            self.shaped(),
            self.min.entry is None <==> self.roots@.len() == 0,
            self.min.entry is Some ==> self.roots@.contains(self.min.entry->0),
        ensures
            links@.len() == self.roots_from_min().len(),
            forall|j: int| 0 <= j < links@.len() ==> #[trigger] links@[j] == at(
                self.roots_from_min()[j],
            ),
    {
        let mut to_visit: Vec<Link> = Vec::new();
        if self.min.is_none() {
            return to_visit;
        }
        let ghost walk = self.roots_from_min();
        proof {
            lemma_starting_with(self.arena@, self.roots@, nil(), self.min.entry->0);
        }
        let mut current = self.min;
        while to_visit.is_empty() || !to_visit[0].are_same(&current)
            invariant
                ring(self.arena@, walk, nil()),
                walk.len() > 0,
                to_visit@.len() <= walk.len(),
                forall|j: int| 0 <= j < to_visit@.len() ==> #[trigger] to_visit@[j] == at(walk[j]),
                current == at(walk[succ(to_visit@.len() - 1, walk.len() as int)]),
            ensures
                to_visit@.len() == walk.len(),
            decreases walk.len() - to_visit@.len(),
        {
            proof {
                let k = to_visit@.len() as int;
                if k == walk.len() {
                    assert(to_visit@[0] == at(walk[0]));
                }
                assert(member_ok(self.arena@, walk, nil(), k));
            }
            let next = current.get_next(&self.arena);
            to_visit.push(current);
            current = next;
        }
        to_visit
    }

    /// Links roots with the same number of children, the larger below the
    /// smaller, until no two roots have the same number of children, and
    /// then finds a least root.
    fn consolidate(&mut self)
        requires
            old(self).shaped(),
            old(self).min.entry is Some,
            old(self).roots@.contains(old(self).min.entry->0),
        ensures
            final(self).wf(),
            final(self).consolidated(),
            pow2(final(self).roots@.len()) <= final(self).size + 1,
            final(self)@ == old(self)@,
            final(self).size == old(self).size,
    {
        let mut tree_table: Vec<Link> = Vec::new();
        let to_visit = self.root_links();
        let ghost pending = to_visit@;
        proof {
            lemma_starting_with(self.arena@, self.roots@, nil(), self.min.entry->0);
            lemma_all_waiting(self.arena@, self.roots@, self.roots_from_min(), pending);
        }
        let mut idx: usize = 0;
        while idx < to_visit.len()
            invariant
                idx <= to_visit@.len(),
                to_visit@ == pending,
                self.roots@.len() > 0,
                self.shaped(),
                self@ == old(self)@,
                self.size == old(self).size,
                sorted_out(self.arena@, self.roots@, tree_table@, pending, idx as int),
            decreases to_visit@.len() - idx,
        {
            let mut link = to_visit[idx];
            proof {
                lemma_taken(self.arena@, self.roots@, tree_table@, pending, idx as int);
            }
            loop
                invariant_except_break
                    in_hand(self.arena@, self.roots@, tree_table@, pending, idx + 1, link),
                invariant
                    idx < to_visit@.len(),
                    to_visit@ == pending,
                    self.roots@.len() > 0,
                    self.shaped(),
                    self@ == old(self)@,
                    self.size == old(self).size,
                ensures
                    sorted_out(self.arena@, self.roots@, tree_table@, pending, idx + 1),
                decreases self.roots@.len(),
            {
                proof {
                    assert(member_ok(
                        self.arena@,
                        self.roots@,
                        nil(),
                        self.roots@.index_of(link.entry->0),
                    ));
                }
                let link_degree = link.get_degree(&self.arena);
                let ghost short = tree_table@;
                Self::make_room(&mut tree_table, link_degree);
                proof {
                    lemma_grown(
                        self.arena@,
                        self.roots@,
                        short,
                        tree_table@,
                        pending,
                        idx + 1,
                        link,
                    );
                }
                if tree_table[link_degree].is_none() {
                    proof {
                        lemma_filed(self.arena@, self.roots@, tree_table@, pending, idx + 1, link);
                    }
                    tree_table[link_degree] = link;
                    break ;
                }
                // Another root has as many children: the two are linked, and
                // the one that stays a root is looked up in the table again.
                let other = tree_table[link_degree];
                let ghost nodes = self.arena@;
                let ghost roots = self.roots@;
                let ghost table = tree_table@;
                proof {
                    lemma_met(nodes, roots, self.kids@, table, pending, idx + 1, link, other);
                }
                tree_table[link_degree] = Link::none();
                let (min_link, max) = if link.less_than(&self.arena, &other) {
                    (link, other)
                } else {
                    (other, link)
                };
                self.adopt(min_link, max);
                proof {
                    lemma_linked(
                        nodes,
                        roots,
                        self.arena@,
                        self.roots@,
                        table,
                        pending,
                        idx + 1,
                        link,
                        min_link,
                        max,
                    );
                }
                link = min_link;
            }
            idx += 1;
        }
        let best = self.least_in(&tree_table);
        proof {
            lemma_all_filed(self.arena@, self.roots@, tree_table@, pending);
            lemma_least_of_all(self.arena@, self.roots@, tree_table@, best);
            lemma_count_of_roots(self.arena@, self.roots@, self.size as int);
        }
        self.min = best;
    }

    /// The least of the roots in `table`, or none if there is no root in
    /// it: of several least roots, the one with the fewest children.
    fn least_in(&self, table: &Vec<Link>) -> (best: Link)
        requires
            self.shaped(),
            table_ok(self.arena@, self.roots@, table@),
        ensures
            least_so_far(self.arena@, self.roots@, table@, table@.len() as int, best),
    {
        let mut best = Link::none();
        let mut degree: usize = 0;
        while degree < table.len()
            invariant
                degree <= table@.len(),
                self.shaped(),
                table_ok(self.arena@, self.roots@, table@),
                least_so_far(self.arena@, self.roots@, table@, degree as int, best),
            decreases table@.len() - degree,
        {
            let candidate = table[degree];
            proof {
                lemma_least_so_far(self.arena@, self.roots@, table@, degree as int, best);
            }
            if candidate.is_some() {
                if best.is_none() || candidate.less_than(&self.arena, &best) {
                    best = candidate;
                }
            }
            degree += 1;
        }
        best
    }

    /// The heap that holds the values of both `x` and `y`; its roots are the
    /// roots of both.
    pub fn merge(x: FibonacciHeap<T>, y: FibonacciHeap<T>) -> (heap: FibonacciHeap<T>)
        requires
            x.wf(),
            y.wf(),
        ensures
            heap.wf(),
            heap@ == x@.add(y@),
            heap.spec_size() == x.spec_size() + y.spec_size(),
            heap.root_ring().len() == x.root_ring().len() + y.root_ring().len(),
    {
        let ghost nx = x.arena@;
        let ghost ny = y.arena@;
        let ghost rx = x.roots@;
        let ghost ry = y.roots@;
        let ghost offset = nx.len() as int;
        let ghost both = nx + shifted(ny, offset);
        let ghost ry2 = shifted_ring(ry, offset);
        let ghost kids = kids_side_by_side(x.kids@, y.kids@, offset);
        let mut result = x;
        let y_min = y.min;
        let y_size = y.size;
        proof {
            lemma_links_in_bounds(ny, ry, y.kids@);
        }
        let moved_by = result.arena.absorb(y.arena);
        proof {
            result.arena.lemma_bounded();
            lemma_side_by_side(nx, rx, result.kids@, ny, ry, y.kids@);
            lemma_values_len(both);
            if y_min.entry is Some {
                let m = y_min.entry->0;
                let k = ry.index_of(m);
                assert(member_ok(ny, ry, nil(), k));
                assert(ry2[k] == (m + offset) as usize);
            }
            if result.min.entry is Some {
                assert(member_ok(nx, rx, nil(), rx.index_of(result.min.entry->0)));
            }
        }
        let y_entry = y_min.shift(moved_by);
        let x_min = result.min;
        proof {
            lemma_join_rings(both, rx, ry2, kids, x_min, y_entry);
            lemma_values_same(both, spliced(both, x_min, y_entry));
            lemma_merge_weight(
                nx,
                rx,
                result.kids@,
                x_min,
                result.size as int,
                ny,
                ry,
                y.kids@,
                y_entry,
                y_size as int,
            );
        }
        result.min = Self::merge_entries(&mut result.arena, x_min, y_entry);
        result.size = result.size + y_size;
        result.roots = Ghost(roots_of_two(rx, x_min, ry2, y_entry));
        result.kids = Ghost(kids);
        proof {
            let after = result.arena@;
            let roots = result.roots@;
            if result.min.entry is Some {
                assert(roots.contains(result.min.entry->0));
            }
            if strict_weak_order::<T>() && result.min.entry is Some {
                let m = result.min.entry->0;
                if y_min.entry is Some {
                    assert forall|k: int| 0 <= k < ry.len() implies ry[k] + offset <= usize::MAX
                        && both[#[trigger] ry[k] + offset]->0.value == ny[ry[k] as int]->0.value by {
                        assert(member_ok(ny, ry, nil(), k));
                    }
                    lemma_least_moved(ny, both, ry, offset, y_min.entry->0);
                }
                if x_min.entry is Some {
                    assert(least_root(both, rx, x_min.entry->0)) by {
                        let mx = x_min.entry->0;
                        assert forall|k: int| 0 <= k < rx.len() implies le(
                            both[mx as int]->0.value,
                            both[#[trigger] rx[k] as int]->0.value,
                        ) by {
                            assert(member_ok(nx, rx, nil(), k));
                            assert(le(nx[mx as int]->0.value, nx[rx[k] as int]->0.value));
                        }
                    }
                }
                if x_min.entry is Some && y_min.entry is Some {
                    lemma_least_of_two(
                        both,
                        rx,
                        ry2,
                        roots,
                        x_min.entry->0,
                        y_entry.entry->0,
                    );
                }
                assert(least_root(both, roots, m));
                assert forall|k: int| 0 <= k < roots.len() implies le(
                    after[m as int]->0.value,
                    after[#[trigger] roots[k] as int]->0.value,
                ) by {
                    assert(roots.contains(roots[k]));
                    assert(member_ok(after, roots, nil(), k));
                    assert(member_ok(after, roots, nil(), roots.index_of(m)));
                    assert(both[m as int] is Some);
                    assert(both[roots[k] as int] is Some);
                    assert(le(both[m as int]->0.value, both[roots[k] as int]->0.value));
                }
            }
        }
        result
    }

    /// Adds `value` to the heap, as one more root.
    pub fn push(&mut self, value: T)
        requires
            old(self).wf(),
        ensures
            final(self).wf(),
            final(self)@ == old(self)@.insert(value),
            final(self).spec_size() == old(self).spec_size() + 1,
            final(self).root_ring().len() == old(self).root_ring().len() + 1,
    {
        let link = Link::new(value, &mut self.arena);
        let min = self.min;
        let ghost i = link.entry->0;
        proof {
            self.arena.lemma_bounded();
            lemma_insert_root(old(self).arena@, self.roots@, self.kids@, min, i, value);
            lemma_insert_weight(
                old(self).arena@,
                self.roots@,
                self.kids@,
                min,
                i,
                value,
                self.size as int,
            );
        }
        self.min = Self::merge_entries(&mut self.arena, min, link);
        proof {
            lemma_values_len(self.arena@);
            self.arena.lemma_bounded();
            self.roots = Ghost(roots_with(self.roots@, min, i));
            self.kids = Ghost(kids_with(self.kids@, i));
        }
        self.size += 1;
    }
}

} // verus!
