use algorithms::data_structures::heap::arena::{Arena, Entry, Link};
use algorithms::data_structures::heap::FibonacciHeap;

#[test]
fn entry_new_is_linked_to_nothing() {
    let e = Entry::new(5);
    assert_eq!(e.value, 5);
    assert_eq!(e.degree, 0);
    assert!(e.parent.is_none());
    assert!(e.next.is_none());
    assert!(e.prev.is_none());
    assert!(e.child.is_none());
}

#[test]
fn link_none_and_some() {
    let nothing = Link::none();
    assert!(nothing.is_none());
    assert!(!nothing.is_some());
    let mut arena = Arena::new();
    let l = Link::new(7, &mut arena);
    assert!(l.is_some());
    assert!(!l.is_none());
    assert!(l.are_same(&l));
    assert!(!l.are_same(&nothing));
    assert!(nothing.are_same(&Link::none()));
}

#[test]
fn link_new_makes_a_ring_of_one() {
    let mut arena = Arena::new();
    let a = Link::new(7, &mut arena);
    let b = Link::new(9, &mut arena);
    assert_eq!(arena.len(), 2);
    assert!(!a.are_same(&b));
    assert!(a.get_next(&arena).are_same(&a));
    assert!(a.get_prev(&arena).are_same(&a));
    assert!(b.get_next(&arena).are_same(&b));
    assert!(a.get_child(&arena).is_none());
    assert_eq!(a.get_degree(&arena), 0);
    assert_eq!(a.borrow(&arena), Some(&7));
    assert_eq!(b.borrow(&arena), Some(&9));
    assert_eq!(arena.get(a).map(|e| e.value), Some(7));
}

#[test]
fn setters_change_one_link() {
    let mut arena = Arena::new();
    let a = Link::new(1, &mut arena);
    let b = Link::new(2, &mut arena);
    a.set_next(&mut arena, &b);
    assert!(a.get_next(&arena).are_same(&b));
    assert!(a.get_prev(&arena).are_same(&a));
    a.set_prev(&mut arena, &b);
    assert!(a.get_prev(&arena).are_same(&b));
    b.set_parent(&mut arena, &a);
    assert!(arena.get(b).unwrap().parent.are_same(&a));
    assert!(arena.get(a).unwrap().parent.is_none());
    a.set_child(&mut arena, &b);
    assert!(a.get_child(&arena).are_same(&b));
    a.inc_degree(&mut arena);
    assert_eq!(a.get_degree(&arena), 1);
    assert_eq!(b.get_degree(&arena), 0);
    assert_eq!(a.borrow(&arena), Some(&1));
}

#[test]
fn absent_links_read_as_nothing_and_write_nothing() {
    let mut arena: Arena<i32> = Arena::new();
    let nothing = Link::none();
    assert_eq!(nothing.get_degree(&arena), 0);
    assert!(nothing.get_next(&arena).is_none());
    assert!(nothing.get_prev(&arena).is_none());
    assert!(nothing.get_child(&arena).is_none());
    assert_eq!(nothing.borrow(&arena), None);
    nothing.set_next(&mut arena, &nothing);
    nothing.inc_degree(&mut arena);
    assert_eq!(nothing.into_value(&mut arena), None);
    let dangling = Link { entry: Some(3) };
    assert_eq!(dangling.borrow(&arena), None);
    assert_eq!(dangling.into_value(&mut arena), None);
    assert_eq!(arena.len(), 0);
}

#[test]
fn vacated_slots_are_used_again() {
    let mut arena = Arena::new();
    let a = Link::new(1, &mut arena);
    let b = Link::new(2, &mut arena);
    assert_eq!(a.into_value(&mut arena), Some(1));
    assert_eq!(a.borrow(&arena), None);
    assert_eq!(a.into_value(&mut arena), None);
    let c = Link::new(3, &mut arena);
    assert!(c.are_same(&a));
    assert_eq!(arena.len(), 2);
    assert_eq!(c.borrow(&arena), Some(&3));
    assert_eq!(b.borrow(&arena), Some(&2));
    assert!(c.get_next(&arena).are_same(&c));
}

#[test]
fn less_than_compares_values() {
    let mut arena = Arena::new();
    let a = Link::new(1, &mut arena);
    let b = Link::new(2, &mut arena);
    assert!(a.less_than(&arena, &b));
    assert!(!b.less_than(&arena, &a));
    assert!(!a.less_than(&arena, &a));
    assert!(!a.less_than(&arena, &Link::none()));
    assert!(!Link::none().less_than(&arena, &a));
}

#[test]
fn eq_and_partial_cmp_compare_values() {
    let mut arena = Arena::new();
    let a = Link::new(1, &mut arena);
    let b = Link::new(2, &mut arena);
    let c = Link::new(1, &mut arena);
    assert!(a.eq(&arena, &c));
    assert!(a.eq(&arena, &a));
    assert!(!a.eq(&arena, &b));
    assert!(!a.eq(&arena, &Link::none()));
    assert!(!Link::none().eq(&arena, &Link::none()));
    assert_eq!(a.partial_cmp(&arena, &b), Some(std::cmp::Ordering::Less));
    assert_eq!(b.partial_cmp(&arena, &a), Some(std::cmp::Ordering::Greater));
    assert_eq!(a.partial_cmp(&arena, &c), Some(std::cmp::Ordering::Equal));
    assert_eq!(a.partial_cmp(&arena, &Link::none()), None);
    assert_eq!(Link::none().partial_cmp(&arena, &a), None);
}

#[test]
fn shift_moves_a_link_up() {
    assert_eq!(Link { entry: Some(3) }.shift(4).entry, Some(7));
    assert!(Link::none().shift(4).is_none());
}

#[test]
fn absorb_places_the_other_arena_behind() {
    let mut front = Arena::new();
    let f = Link::new(10, &mut front);
    let mut back = Arena::new();
    let x = Link::new(1, &mut back);
    let y = Link::new(2, &mut back);
    let z = Link::new(3, &mut back);
    x.set_next(&mut back, &y);
    y.set_prev(&mut back, &x);
    assert_eq!(z.into_value(&mut back), Some(3));
    let offset = front.absorb(back);
    assert_eq!(offset, 1);
    assert_eq!(front.len(), 4);
    let x2 = x.shift(offset);
    let y2 = y.shift(offset);
    assert_eq!(x2.borrow(&front), Some(&1));
    assert_eq!(y2.borrow(&front), Some(&2));
    assert!(x2.get_next(&front).are_same(&y2));
    assert!(y2.get_prev(&front).are_same(&x2));
    assert!(y2.get_next(&front).are_same(&y2));
    assert_eq!(f.borrow(&front), Some(&10));
    // the vacant slot of the newcomer is handed out before the arena grows
    let again = Link::new(4, &mut front);
    assert!(again.are_same(&z.shift(offset)));
    assert_eq!(front.len(), 4);
}

#[test]
fn merge_entries_splices_two_rings() {
    let mut arena = Arena::new();
    let a = Link::new(5, &mut arena);
    let b = Link::new(3, &mut arena);
    let c = Link::new(8, &mut arena);
    let ab = FibonacciHeap::merge_entries(&mut arena, a, b);
    assert!(ab.are_same(&b));
    assert!(a.get_next(&arena).are_same(&b));
    assert!(b.get_next(&arena).are_same(&a));
    assert!(a.get_prev(&arena).are_same(&b));
    let abc = FibonacciHeap::merge_entries(&mut arena, ab, c);
    assert!(abc.are_same(&b));
    // b is followed by what followed c, and c by what followed b
    assert!(b.get_next(&arena).are_same(&c));
    assert!(c.get_next(&arena).are_same(&a));
    assert!(a.get_next(&arena).are_same(&b));
    assert!(a.get_prev(&arena).are_same(&c));
    assert!(c.get_prev(&arena).are_same(&b));
    assert!(b.get_prev(&arena).are_same(&a));
    let same = FibonacciHeap::merge_entries(&mut arena, Link::none(), c);
    assert!(same.are_same(&c));
    let same = FibonacciHeap::merge_entries(&mut arena, a, Link::none());
    assert!(same.are_same(&a));
    assert!(FibonacciHeap::<i32>::merge_entries(&mut arena, Link::none(), Link::none()).is_none());
    // of two equal values the second is the way in
    let d = Link::new(3, &mut arena);
    let tie = FibonacciHeap::merge_entries(&mut arena, b, d);
    assert!(tie.are_same(&d));
}
