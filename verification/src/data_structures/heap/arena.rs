//! The node store of the Fibonacci heap.
//!
//! Nodes live in the slots of one growable vector and refer to each other by
//! slot number. A [`Link`] is such a reference (or the absence of one), an
//! [`Entry`] is a node, and the [`Arena`] owns all nodes. Vacated slots are
//! remembered and handed out again before the vector grows.

use crate::order::{comparison_is_specified, equality_is_specified, lt, partial_order_of, same};
use core::cmp::Ordering;
use vstd::prelude::*;

verus! {

/// A reference to a slot of an [`Arena`], or no reference at all.
#[derive(Clone, Copy, Debug)]
pub struct Link {
    pub entry: Option<usize>,
}

/// One node: a value, the number of its children, and its place among its
/// neighbours.
pub struct Entry<T> {
    pub value: T,
    pub degree: usize,
    pub parent: Link,
    pub next: Link,
    pub prev: Link,
    pub child: Link,
}

/// What an arena holds, slot by slot; `None` marks a vacant slot.
pub type Nodes<T> = Seq<Option<Entry<T>>>;

/// The link that refers to nothing.
pub open spec fn nil() -> Link {
    Link { entry: None }
}

/// The link that refers to slot `i`.
pub open spec fn at(i: usize) -> Link {
    Link { entry: Some(i) }
}

/// Slot `i` exists and is occupied.
pub open spec fn live<T>(nodes: Nodes<T>, i: int) -> bool {
    0 <= i < nodes.len() && nodes[i] is Some
}

/// `l` refers to an occupied slot.
pub open spec fn occupied<T>(nodes: Nodes<T>, l: Link) -> bool {
    l.entry is Some && live(nodes, l.entry->0 as int)
}

/// The node that `l` refers to, if it refers to one.
pub open spec fn entry_at<T>(nodes: Nodes<T>, l: Link) -> Option<Entry<T>> {
    if occupied(nodes, l) {
        nodes[l.entry->0 as int]
    } else {
        None
    }
}

/// A node on its own: no parent, no children, and itself as both neighbours.
pub open spec fn lone_entry<T>(value: T, i: usize) -> Entry<T> {
    Entry { value, degree: 0, parent: nil(), next: at(i), prev: at(i), child: nil() }
}

/// `nodes` with `e` placed in slot `i`, which is either an existing slot or
/// the one just past the end.
pub open spec fn installed<T>(nodes: Nodes<T>, i: int, e: Entry<T>) -> Nodes<T> {
    if i < nodes.len() {
        nodes.update(i, Some(e))
    } else {
        nodes.push(Some(e))
    }
}

/// `nodes` with the node at `l` replaced by `e`; unchanged if `l` refers to
/// no node.
pub open spec fn replaced<T>(nodes: Nodes<T>, l: Link, e: Entry<T>) -> Nodes<T> {
    if occupied(nodes, l) {
        nodes.update(l.entry->0 as int, Some(e))
    } else {
        nodes
    }
}

/// `nodes` with `degree` recorded as the number of children of the node at
/// `l`; unchanged if `l` refers to no node.
pub open spec fn with_degree<T>(nodes: Nodes<T>, l: Link, degree: usize) -> Nodes<T> {
    replaced(nodes, l, Entry { degree, ..nodes[l.entry->0 as int]->0 })
}

/// `nodes` with `parent` recorded as the parent of the node at `l`;
/// unchanged if `l` refers to no node.
pub open spec fn with_parent<T>(nodes: Nodes<T>, l: Link, parent: Link) -> Nodes<T> {
    replaced(nodes, l, Entry { parent, ..nodes[l.entry->0 as int]->0 })
}

/// `nodes` with `next` recorded as the right neighbour of the node at `l`;
/// unchanged if `l` refers to no node.
pub open spec fn with_next<T>(nodes: Nodes<T>, l: Link, next: Link) -> Nodes<T> {
    replaced(nodes, l, Entry { next, ..nodes[l.entry->0 as int]->0 })
}

/// `nodes` with `prev` recorded as the left neighbour of the node at `l`;
/// unchanged if `l` refers to no node.
pub open spec fn with_prev<T>(nodes: Nodes<T>, l: Link, prev: Link) -> Nodes<T> {
    replaced(nodes, l, Entry { prev, ..nodes[l.entry->0 as int]->0 })
}

/// `nodes` with `child` recorded in the node at `l` as the way into the ring
/// of its children; unchanged if `l` refers to no node.
pub open spec fn with_child<T>(nodes: Nodes<T>, l: Link, child: Link) -> Nodes<T> {
    replaced(nodes, l, Entry { child, ..nodes[l.entry->0 as int]->0 })
}

/// `l` moved `offset` slots up; the absent link stays absent.
pub open spec fn shifted_link(l: Link, offset: int) -> Link {
    match l.entry {
        Some(i) => at((i + offset) as usize),
        None => nil(),
    }
}

/// `e` with each of its links moved `offset` slots up.
pub open spec fn shifted_entry<T>(e: Entry<T>, offset: int) -> Entry<T> {
    Entry {
        value: e.value,
        degree: e.degree,
        parent: shifted_link(e.parent, offset),
        next: shifted_link(e.next, offset),
        prev: shifted_link(e.prev, offset),
        child: shifted_link(e.child, offset),
    }
}

/// `nodes` with the links of every node moved `offset` slots up.
pub open spec fn shifted<T>(nodes: Nodes<T>, offset: int) -> Nodes<T> {
    Seq::new(
        nodes.len(),
        |i: int|
            match nodes[i] {
                Some(e) => Some(shifted_entry(e, offset)),
                None => None,
            },
    )
}

/// `l` is absent or refers to a slot that exists.
pub open spec fn link_in_bounds<T>(nodes: Nodes<T>, l: Link) -> bool {
    l.entry is Some ==> (l.entry->0 as int) < nodes.len()
}

/// No node of `nodes` refers to a slot past the end.
pub open spec fn links_in_bounds<T>(nodes: Nodes<T>) -> bool {
    forall|i: int| #[trigger]
        live(nodes, i) ==> {
            &&& link_in_bounds(nodes, nodes[i]->0.parent)
            &&& link_in_bounds(nodes, nodes[i]->0.next)
            &&& link_in_bounds(nodes, nodes[i]->0.prev)
            &&& link_in_bounds(nodes, nodes[i]->0.child)
        }
}

impl<T> Entry<T> {
    /// A node that holds `value` and is linked to nothing.
    pub fn new(value: T) -> (e: Entry<T>)
        ensures
            e == (Entry {
                value,
                degree: 0,
                parent: nil(),
                next: nil(),
                prev: nil(),
                child: nil(),
            }),
    {
        Entry {
            value,
            degree: 0,
            parent: Link::none(),
            next: Link::none(),
            prev: Link::none(),
            child: Link::none(),
        }
    }
}

/// Slot `i` is named in the list `free`.
pub open spec fn listed(free: Seq<usize>, i: int) -> bool {
    exists|k: int| 0 <= k < free.len() && #[trigger] free[k] as int == i
}

/// The owner of all nodes of one heap.
pub struct Arena<T> {
    slots: Vec<Option<Entry<T>>>,
    free: Vec<usize>,
}

impl<T> View for Arena<T> {
    type V = Nodes<T>;

    /// What the arena holds, slot by slot.
    closed spec fn view(&self) -> Nodes<T> {
        self.slots@
    }
}

impl<T> Arena<T> {
    /// The list of vacant slots is exact: it names each vacant slot once and
    /// nothing else.
    pub closed spec fn wf(&self) -> bool {
        &&& self.slots@.len() <= usize::MAX
        &&& self.free@.no_duplicates()
        &&& forall|k: int|
            0 <= k < self.free@.len() ==> (#[trigger] self.free@[k] as int) < self.slots@.len()
                && self.slots@[self.free@[k] as int] is None
        &&& forall|i: int|
            0 <= i < self.slots@.len() && (#[trigger] self.slots@[i]) is None ==> listed(
                self.free@,
                i,
            )
    }

    /// An arena without slots.
    pub fn new() -> (arena: Arena<T>)
        ensures
            arena.wf(),
            arena@ == Seq::<Option<Entry<T>>>::empty(),
    {
        Arena { slots: Vec::new(), free: Vec::new() }
    }

    /// An arena never has more slots than a `usize` can count.
    pub proof fn lemma_bounded(&self)
        requires
            self.wf(),
        ensures
            self@.len() <= usize::MAX,
    {
    }

    /// The number of slots, vacant ones included.
    pub fn len(&self) -> (n: usize)
        ensures
            n == self@.len(),
    {
        self.slots.len()
    }

    /// The node that `l` refers to, if it refers to one.
    pub fn get(&self, l: Link) -> (r: Option<&Entry<T>>)
        ensures
            r == match entry_at(self@, l) {
                Some(e) => Some(&e),
                None => None,
            },
    {
        match l.entry {
            Some(i) => {
                if i < self.slots.len() {
                    self.slots[i].as_ref()
                } else {
                    None
                }
            },
            None => None,
        }
    }

    /// Moves every node of `other` into `self`, behind the slots that `self`
    /// already has, and returns the number of slots that the newcomers were
    /// moved up by. Links among the newcomers are moved up with them.
    pub fn absorb(&mut self, other: Arena<T>) -> (offset: usize)
        requires
            old(self).wf(),
            other.wf(),
            links_in_bounds(other@),
        ensures
            final(self).wf(),
            offset == old(self)@.len(),
            final(self)@ == old(self)@ + shifted(other@, offset as int),
    {
        let offset = self.slots.len();
        let mut other = other;
        let ghost incoming = other@;
        let ghost incoming_free = other.free@;
        let ghost before = self@;
        let ghost before_free = self.free@;
        let ghost merged = before + shifted(incoming, offset as int);
        self.slots.append(&mut other.slots);
        let total = self.slots.len();
        let mut i: usize = offset;
        while i < total
            invariant
                offset <= i <= total,
                total == before.len() + incoming.len(),
                offset == before.len(),
                links_in_bounds(incoming),
                merged == before + shifted(incoming, offset as int),
                self.free@ == before_free,
                self.slots@.len() == total,
                forall|k: int| 0 <= k < i ==> self.slots@[k] == merged[k],
                forall|k: int| i <= k < total ==> self.slots@[k] == incoming[k - offset],
            decreases total - i,
        {
            proof {
                if live(incoming, i - offset) {
                    let e = incoming[i - offset]->0;
                    assert(link_in_bounds(incoming, e.parent));
                    assert(link_in_bounds(incoming, e.next));
                    assert(link_in_bounds(incoming, e.prev));
                    assert(link_in_bounds(incoming, e.child));
                }
            }
            match &mut self.slots[i] {
                Some(e) => {
                    e.parent = e.parent.shift(offset);
                    e.next = e.next.shift(offset);
                    e.prev = e.prev.shift(offset);
                    e.child = e.child.shift(offset);
                },
                None => {},
            }
            assert(merged[i as int] == shifted(incoming, offset as int)[i - offset]);
            i += 1;
        }
        assert(self.slots@ =~= merged);
        let mut k: usize = 0;
        let count = other.free.len();
        while k < count
            invariant
                k <= count,
                count == incoming_free.len(),
                other.free@ == incoming_free,
                self.slots@ == merged,
                merged.len() == total,
                total == offset + incoming.len(),
                forall|j: int|
                    0 <= j < incoming_free.len() ==> (#[trigger] incoming_free[j] as int)
                        < incoming.len(),
                self.free@.len() == before_free.len() + k,
                forall|j: int| 0 <= j < before_free.len() ==> self.free@[j] == before_free[j],
                forall|j: int|
                    0 <= j < k ==> #[trigger] self.free@[before_free.len() + j]
                        == incoming_free[j] + offset,
            decreases count - k,
        {
            let slot = other.free[k];
            self.free.push(slot + offset);
            k += 1;
        }
        proof {
            let free = self.free@;
            let nb = before_free.len() as int;
            assert forall|a: int, b: int| 0 <= a < free.len() && 0 <= b < free.len() && a != b
                implies free[a] != free[b] by {
                if a >= nb {
                    assert(free[nb + (a - nb)] == incoming_free[a - nb] + offset);
                } else {
                    assert((before_free[a] as int) < before.len());
                }
                if b >= nb {
                    assert(free[nb + (b - nb)] == incoming_free[b - nb] + offset);
                } else {
                    assert((before_free[b] as int) < before.len());
                }
            }
            assert forall|a: int| 0 <= a < free.len() implies (#[trigger] free[a] as int)
                < self.slots@.len() && self.slots@[free[a] as int] is None by {
                if a < nb {
                    assert((before_free[a] as int) < before.len());
                } else {
                    let j = a - nb;
                    assert(free[nb + j] == incoming_free[j] + offset);
                    assert((incoming_free[j] as int) < incoming.len());
                    assert(incoming[incoming_free[j] as int] is None);
                }
            }
            assert forall|s: int|
                0 <= s < self.slots@.len() && (#[trigger] self.slots@[s]) is None implies listed(
                free,
                s,
            ) by {
                if s < offset {
                    assert(before[s] is None);
                    let a = choose|a: int|
                        0 <= a < before_free.len() && #[trigger] before_free[a] as int == s;
                    assert(free[a] as int == s);
                } else {
                    assert(incoming[s - offset] is None);
                    let j = choose|j: int|
                        0 <= j < incoming_free.len() && #[trigger] incoming_free[j] as int == s
                            - offset;
                    assert(free[nb + j] as int == s);
                }
            }
        }
        offset
    }
}

impl Link {
    /// The link that refers to nothing.
    pub fn none() -> (l: Link)
        ensures
            l == nil(),
    {
        Link { entry: None }
    }

    /// Whether the link refers to nothing.
    pub fn is_none(&self) -> (b: bool)
        ensures
            b == (self.entry is None),
    {
        self.entry.is_none()
    }

    /// Whether the link refers to a slot.
    pub fn is_some(&self) -> (b: bool)
        ensures
            b == (self.entry is Some),
    {
        !self.is_none()
    }

    /// Whether two links refer to the same slot, or both to nothing.
    pub fn are_same(&self, other: &Link) -> (b: bool)
        ensures
            b == (*self == *other),
    {
        match (self.entry, other.entry) {
            (None, None) => true,
            (Some(i), Some(j)) => i == j,
            _ => false,
        }
    }

    /// The link moved `offset` slots up; the absent link stays absent.
    pub fn shift(&self, offset: usize) -> (l: Link)
        requires
            self.entry is Some ==> self.entry->0 + offset <= usize::MAX,
        ensures
            l == shifted_link(*self, offset as int),
    {
        match self.entry {
            Some(i) => Link { entry: Some(i + offset) },
            None => Link { entry: None },
        }
    }

    /// Stores `value` in a vacant slot of `arena`, or in a new one, as a
    /// node on its own, and returns the link to it.
    pub fn new<T>(value: T, arena: &mut Arena<T>) -> (l: Link)
        requires
            old(arena).wf(),
        ensures
            final(arena).wf(),
            l.entry is Some,
            l.entry->0 <= old(arena)@.len(),
            !live(old(arena)@, l.entry->0 as int),
            final(arena)@ == installed(
                old(arena)@,
                l.entry->0 as int,
                lone_entry(value, l.entry->0),
            ),
    {
        let mut entry = Entry::new(value);
        match arena.free.pop() {
            Some(i) => {
                let ghost rest = arena.free@;
                let ghost before = arena.slots@;
                assert(old(arena).free@[old(arena).free@.len() - 1] == i);
                entry.next = Link { entry: Some(i) };
                entry.prev = Link { entry: Some(i) };
                arena.slots[i] = Some(entry);
                proof {
                    assert forall|s: int|
                        0 <= s < arena.slots@.len() && (#[trigger] arena.slots@[s]) is None implies
                            listed(
                        rest,
                        s,
                    ) by {
                        assert(before[s] is None);
                        let a = choose|a: int|
                            0 <= a < old(arena).free@.len() && #[trigger] old(arena).free@[a] as int
                                == s;
                        assert(rest[a] as int == s);
                    }
                    assert forall|k: int| 0 <= k < rest.len() implies (#[trigger] rest[k] as int)
                        < arena.slots@.len() && arena.slots@[rest[k] as int] is None by {
                        assert(old(arena).free@[k] == rest[k]);
                    }
                }
                Link { entry: Some(i) }
            },
            None => {
                arena.slots.push(Some(entry));
                let i = arena.slots.len() - 1;
                let l = Link { entry: Some(i) };
                l.set_next(arena, &l);
                l.set_prev(arena, &l);
                assert(arena.slots@ =~= installed(old(arena)@, i as int, lone_entry(value, i)));
                l
            },
        }
    }

    /// Whether the two nodes hold equal values; `false` where either node
    /// is missing.
    pub fn eq<T: PartialOrd>(&self, arena: &Arena<T>, other: &Link) -> (b: bool)
        ensures
            !(occupied(arena@, *self) && occupied(arena@, *other)) ==> !b,
            equality_is_specified::<T>() && occupied(arena@, *self) && occupied(arena@, *other)
                ==> b == (entry_at(arena@, *self)->0.value == entry_at(arena@, *other)->0.value),
    {
        match (arena.get(*self), arena.get(*other)) {
            (Some(a), Some(b)) => same(&a.value, &b.value),
            _ => false,
        }
    }

    /// How the value of this node compares with that of `other`; `None`
    /// where either node is missing.
    pub fn partial_cmp<T: PartialOrd>(&self, arena: &Arena<T>, other: &Link) -> (o: Option<
        Ordering,
    >)
        ensures
            !(occupied(arena@, *self) && occupied(arena@, *other)) ==> o is None,
            comparison_is_specified::<T>() && occupied(arena@, *self) && occupied(arena@, *other)
                ==> o == partial_order_of(
                entry_at(arena@, *self)->0.value,
                entry_at(arena@, *other)->0.value,
            ),
    {
        match (arena.get(*self), arena.get(*other)) {
            (Some(a), Some(b)) => a.value.partial_cmp(&b.value),
            _ => None,
        }
    }

    /// Whether the value of this node is strictly below that of `other`;
    /// `false` where either node is missing.
    pub fn less_than<T: PartialOrd>(&self, arena: &Arena<T>, other: &Link) -> (b: bool)
        ensures
            !(occupied(arena@, *self) && occupied(arena@, *other)) ==> !b,
            comparison_is_specified::<T>() && occupied(arena@, *self) && occupied(arena@, *other)
                ==> b == lt(entry_at(arena@, *self)->0.value, entry_at(arena@, *other)->0.value),
    {
        match self.partial_cmp(arena, other) {
            Some(Ordering::Less) => true,
            _ => false,
        }
    }

    /// The number of children recorded in the node; 0 where there is no node.
    pub fn get_degree<T>(&self, arena: &Arena<T>) -> (d: usize)
        ensures
            d == match entry_at(arena@, *self) {
                Some(e) => e.degree,
                None => 0,
            },
    {
        match arena.get(*self) {
            Some(e) => e.degree,
            None => 0,
        }
    }

    /// Adds one to the number of children recorded in the node.
    pub fn inc_degree<T>(&self, arena: &mut Arena<T>)
        requires
            old(arena).wf(),
            occupied(old(arena)@, *self) ==> entry_at(old(arena)@, *self)->0.degree < usize::MAX,
        ensures
            final(arena).wf(),
            final(arena)@ == with_degree(
                old(arena)@,
                *self,
                (entry_at(old(arena)@, *self)->0.degree + 1) as usize,
            ),
    {
        if let Some(i) = self.entry {
            if i < arena.slots.len() {
                match &mut arena.slots[i] {
                    Some(e) => {
                        e.degree = e.degree + 1;
                    },
                    None => {},
                }
            }
        }
    }

    /// Takes the node out of the arena, leaving its slot vacant, and returns
    /// its value; `None` where there is no node.
    pub fn into_value<T>(self, arena: &mut Arena<T>) -> (v: Option<T>)
        requires
            old(arena).wf(),
        ensures
            final(arena).wf(),
            v == match entry_at(old(arena)@, self) {
                Some(e) => Some(e.value),
                None => None,
            },
            final(arena)@ == if occupied(old(arena)@, self) {
                old(arena)@.update(self.entry->0 as int, None)
            } else {
                old(arena)@
            },
    {
        match self.entry {
            Some(i) => {
                if i < arena.slots.len() {
                    match arena.slots[i].take() {
                        Some(e) => {
                            let ghost before = arena.free@;
                            arena.free.push(i);
                            proof {
                                assert forall|a: int| 0 <= a < before.len() implies before[a]
                                    != i by {
                                    assert(old(arena).slots@[before[a] as int] is None);
                                }
                                assert forall|s: int|
                                    0 <= s < arena.slots@.len() && (
                                    #[trigger] arena.slots@[s]) is None implies listed(
                                    arena.free@,
                                    s,
                                ) by {
                                    if s == i {
                                        assert(arena.free@[before.len() as int] as int == s);
                                    } else {
                                        assert(old(arena).slots@[s] is None);
                                        let a = choose|a: int|
                                            0 <= a < before.len() && #[trigger] before[a] as int
                                                == s;
                                        assert(arena.free@[a] as int == s);
                                    }
                                }
                                assert forall|k: int| 0 <= k < arena.free@.len() implies (
                                #[trigger] arena.free@[k] as int) < arena.slots@.len()
                                    && arena.slots@[arena.free@[k] as int] is None by {
                                    if k < before.len() {
                                        assert(before[k] == arena.free@[k]);
                                    }
                                }
                            }
                            Some(e.value)
                        },
                        None => None,
                    }
                } else {
                    None
                }
            },
            None => None,
        }
    }

    /// The value of the node; `None` where there is no node.
    pub fn borrow<'a, T>(&self, arena: &'a Arena<T>) -> (v: Option<&'a T>)
        ensures
            v == match entry_at(arena@, *self) {
                Some(e) => Some(&e.value),
                None => None,
            },
    {
        match arena.get(*self) {
            Some(e) => Some(&e.value),
            None => None,
        }
    }

    /// The node's entry into the ring of its children; absent where there is
    /// no node.
    pub fn get_child<T>(&self, arena: &Arena<T>) -> (l: Link)
        ensures
            l == match entry_at(arena@, *self) {
                Some(e) => e.child,
                None => nil(),
            },
    {
        match arena.get(*self) {
            Some(e) => e.child,
            None => Link::none(),
        }
    }

    /// The node's right neighbour in its ring; absent where there is no node.
    pub fn get_next<T>(&self, arena: &Arena<T>) -> (l: Link)
        ensures
            l == match entry_at(arena@, *self) {
                Some(e) => e.next,
                None => nil(),
            },
    {
        match arena.get(*self) {
            Some(e) => e.next,
            None => Link::none(),
        }
    }

    /// The node's left neighbour in its ring; absent where there is no node.
    pub fn get_prev<T>(&self, arena: &Arena<T>) -> (l: Link)
        ensures
            l == match entry_at(arena@, *self) {
                Some(e) => e.prev,
                None => nil(),
            },
    {
        match arena.get(*self) {
            Some(e) => e.prev,
            None => Link::none(),
        }
    }

    /// Records `child` as the node's entry into the ring of its children.
    /// Does nothing where there is no node.
    pub fn set_child<T>(&self, arena: &mut Arena<T>, child: &Link)
        requires
            old(arena).wf(),
        ensures
            final(arena).wf(),
            final(arena)@ == with_child(old(arena)@, *self, *child),
    {
        if let Some(i) = self.entry {
            if i < arena.slots.len() {
                match &mut arena.slots[i] {
                    Some(e) => {
                        e.child = *child;
                    },
                    None => {},
                }
            }
        }
    }

    /// Records `parent` as the node's parent. Does nothing where there is no
    /// node.
    pub fn set_parent<T>(&self, arena: &mut Arena<T>, parent: &Link)
        requires
            old(arena).wf(),
        ensures
            final(arena).wf(),
            final(arena)@ == with_parent(old(arena)@, *self, *parent),
    {
        if let Some(i) = self.entry {
            if i < arena.slots.len() {
                match &mut arena.slots[i] {
                    Some(e) => {
                        e.parent = *parent;
                    },
                    None => {},
                }
            }
        }
    }

    /// Records `next` as the node's right neighbour. Does nothing where there
    /// is no node.
    pub fn set_next<T>(&self, arena: &mut Arena<T>, next: &Link)
        requires
            old(arena).wf(),
        ensures
            final(arena).wf(),
            final(arena)@ == with_next(old(arena)@, *self, *next),
    {
        if let Some(i) = self.entry {
            if i < arena.slots.len() {
                match &mut arena.slots[i] {
                    Some(e) => {
                        e.next = *next;
                    },
                    None => {},
                }
            }
        }
    }

    /// Records `prev` as the node's left neighbour. Does nothing where there
    /// is no node.
    pub fn set_prev<T>(&self, arena: &mut Arena<T>, prev: &Link)
        requires
            old(arena).wf(),
        ensures
            final(arena).wf(),
            final(arena)@ == with_prev(old(arena)@, *self, *prev),
    {
        if let Some(i) = self.entry {
            if i < arena.slots.len() {
                match &mut arena.slots[i] {
                    Some(e) => {
                        e.prev = *prev;
                    },
                    None => {},
                }
            }
        }
    }
}

} // verus!
