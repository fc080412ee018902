use algorithms::data_structures::heap::FibonacciHeap;

#[test]
fn fibonacci_test_size() {
    let mut heap = FibonacciHeap::new();

    heap.push(1);

    assert_eq!(1, heap.size());
}

#[test]
fn fibonacci_test_min() {
    let mut heap = FibonacciHeap::new();

    heap.push(1);

    assert_eq!(1, *heap.min().unwrap());
}

#[test]
fn fibonacci_test_pop() {
    let mut heap = FibonacciHeap::new();

    heap.push(1);

    assert_eq!(1, heap.pop().unwrap());
}

#[test]
fn fibonacci_test_order() {
    let mut heap = FibonacciHeap::new();

    heap.push(7);
    heap.push(1);
    heap.push(8);
    heap.push(4);
    heap.push(5);
    heap.push(2);
    heap.push(3);
    heap.push(6);

    assert_eq!(1, heap.pop().unwrap());
    assert_eq!(2, heap.pop().unwrap());
    assert_eq!(3, heap.pop().unwrap());
    assert_eq!(4, heap.pop().unwrap());
    assert_eq!(5, heap.pop().unwrap());
    assert_eq!(6, heap.pop().unwrap());
    assert_eq!(7, heap.pop().unwrap());
    assert_eq!(8, heap.pop().unwrap());
}

#[test]
fn stress_push_then_pop_sorted() {
    let mut heap = FibonacciHeap::new();
    let n: u64 = 2000;
    let mut x: u64 = 12345;
    let mut pushed: Vec<u64> = Vec::new();
    for _ in 0..n {
        x = x.wrapping_mul(6364136223846793005).wrapping_add(1442695040888963407);
        let v = (x >> 33) % 500;
        heap.push(v);
        pushed.push(v);
    }
    pushed.sort();
    assert_eq!(heap.size(), pushed.len());
    for expected in pushed {
        assert_eq!(heap.peek_min().copied(), Some(expected));
        assert_eq!(heap.pop(), Some(expected));
    }
    assert!(heap.is_empty());
    assert_eq!(heap.pop(), None);
}

#[test]
fn merge_yields_sorted_union() {
    let mut a = FibonacciHeap::new();
    let mut b = FibonacciHeap::new();
    for v in [5, 1, 9, 3] {
        a.push(v);
    }
    for v in [4, 1, 8] {
        b.push(v);
    }
    assert_eq!(a.pop(), Some(1));
    a.push(7);
    let mut merged = FibonacciHeap::merge(a, b);
    assert_eq!(merged.size(), 7);
    let mut out = Vec::new();
    while let Some(v) = merged.pop() {
        out.push(v);
    }
    assert_eq!(out, vec![1, 3, 4, 5, 7, 8, 9]);
}

#[test]
fn unsafe_fibonacci_test_size() {
    let mut heap = FibonacciHeap::new();

    heap.push(1);

    assert_eq!(1, heap.size());
}

#[test]
fn unsafe_fibonacci_test_min() {
    let mut heap = FibonacciHeap::new();

    heap.push(1);

    assert_eq!(1, *heap.min().unwrap());
}

#[test]
fn unsafe_fibonacci_test_pop() {
    let mut heap = FibonacciHeap::new();

    heap.push(1);

    assert_eq!(1, heap.pop().unwrap());
}

#[test]
fn unsafe_fibonacci_test_order() {
    let mut heap = FibonacciHeap::new();

    heap.push(7);
    heap.push(1);
    heap.push(8);
    heap.push(4);
    heap.push(5);
    heap.push(2);
    heap.push(3);
    heap.push(6);

    assert_eq!(1, heap.pop().unwrap());
    assert_eq!(2, heap.pop().unwrap());
    assert_eq!(3, heap.pop().unwrap());
    assert_eq!(4, heap.pop().unwrap());
    assert_eq!(5, heap.pop().unwrap());
    assert_eq!(6, heap.pop().unwrap());
    assert_eq!(7, heap.pop().unwrap());
    assert_eq!(8, heap.pop().unwrap());
}

#[test]
fn fresh_heap_is_empty() {
    let mut heap: FibonacciHeap<i32> = FibonacciHeap::new();
    assert_eq!(heap.size(), 0);
    assert!(heap.is_empty());
    assert_eq!(heap.peek_min(), None);
    assert_eq!(heap.min(), None);
    assert_eq!(heap.pop(), None);
}

#[test]
fn single_element_round_trip() {
    let mut heap = FibonacciHeap::new();
    heap.push(1);
    assert!(!heap.is_empty());
    assert_eq!(heap.pop(), Some(1));
    assert!(heap.is_empty());
    assert_eq!(heap.size(), 0);
}

#[test]
fn popping_an_empty_heap_changes_nothing() {
    let mut heap = FibonacciHeap::new();
    for _ in 0..5 {
        assert_eq!(heap.pop(), None);
        assert_eq!(heap.size(), 0);
        assert!(heap.is_empty());
    }
    heap.push(4);
    heap.push(2);
    assert_eq!(heap.pop(), Some(2));
    assert_eq!(heap.pop(), Some(4));
    for _ in 0..5 {
        assert_eq!(heap.pop(), None);
        assert_eq!(heap.size(), 0);
    }
    heap.push(9);
    assert_eq!(heap.peek_min(), Some(&9));
    assert_eq!(heap.size(), 1);
}

#[test]
fn size_follows_pushes_pops_and_merges() {
    let mut a = FibonacciHeap::new();
    let mut expected = 0;
    for v in 0..20 {
        a.push(v % 7);
        expected += 1;
        assert_eq!(a.size(), expected);
        assert_eq!(a.is_empty(), a.size() == 0);
        if v % 3 == 0 {
            assert!(a.pop().is_some());
            expected -= 1;
            assert_eq!(a.size(), expected);
        }
    }
    let mut b = FibonacciHeap::new();
    b.push(100);
    b.push(-1);
    let merged = FibonacciHeap::merge(a, b);
    assert_eq!(merged.size(), expected + 2);
    assert_eq!(merged.peek_min(), Some(&-1));
}

#[test]
fn peek_min_is_the_smallest_after_every_step() {
    let mut heap = FibonacciHeap::new();
    let mut model: Vec<i64> = Vec::new();
    let mut x: i64 = 7;
    for step in 0..400 {
        x = (x * 1103515245 + 12345) % 2147483648;
        if step % 4 == 3 {
            let got = heap.pop();
            model.sort();
            let want = if model.is_empty() { None } else { Some(model.remove(0)) };
            assert_eq!(got, want);
        } else {
            let v = x % 50;
            heap.push(v);
            model.push(v);
        }
        assert_eq!(heap.peek_min().copied(), model.iter().min().copied());
        assert_eq!(heap.size(), model.len());
    }
}

#[test]
fn merge_with_empty_heaps() {
    let empty_a: FibonacciHeap<u8> = FibonacciHeap::new();
    let empty_b: FibonacciHeap<u8> = FibonacciHeap::new();
    let mut both = FibonacciHeap::merge(empty_a, empty_b);
    assert!(both.is_empty());
    assert_eq!(both.pop(), None);

    let mut full = FibonacciHeap::new();
    full.push(3u8);
    full.push(2u8);
    let mut left = FibonacciHeap::merge(full, FibonacciHeap::new());
    assert_eq!(left.size(), 2);
    assert_eq!(left.pop(), Some(2));

    let mut right = FibonacciHeap::merge(FibonacciHeap::new(), left);
    assert_eq!(right.size(), 1);
    assert_eq!(right.pop(), Some(3));
    assert_eq!(right.pop(), None);
}

#[test]
fn merge_of_heaps_with_freed_slots() {
    let mut a = FibonacciHeap::new();
    let mut b = FibonacciHeap::new();
    for v in [10, 30, 20, 50, 40] {
        a.push(v);
    }
    for v in [15, 5, 25, 45, 35] {
        b.push(v);
    }
    assert_eq!(a.pop(), Some(10));
    assert_eq!(a.pop(), Some(20));
    assert_eq!(b.pop(), Some(5));
    let mut merged = FibonacciHeap::merge(a, b);
    merged.push(1);
    merged.push(60);
    let mut out = Vec::new();
    while let Some(v) = merged.pop() {
        out.push(v);
    }
    assert_eq!(out, vec![1, 15, 25, 30, 35, 40, 45, 50, 60]);
}

#[test]
fn equal_values_all_come_out() {
    let mut heap = FibonacciHeap::new();
    for _ in 0..10 {
        heap.push(4);
        heap.push(2);
    }
    for _ in 0..10 {
        assert_eq!(heap.pop(), Some(2));
    }
    for _ in 0..10 {
        assert_eq!(heap.pop(), Some(4));
    }
    assert_eq!(heap.pop(), None);
}

struct Counted {
    value: u32,
    comparisons: std::rc::Rc<std::cell::Cell<u64>>,
}

impl PartialEq for Counted {
    fn eq(&self, other: &Counted) -> bool {
        self.value == other.value
    }
}

impl PartialOrd for Counted {
    fn partial_cmp(&self, other: &Counted) -> Option<std::cmp::Ordering> {
        self.comparisons.set(self.comparisons.get() + 1);
        self.value.partial_cmp(&other.value)
    }
}

#[test]
fn comparisons_stay_within_n_log_n() {
    let n: u32 = 10000;
    let comparisons = std::rc::Rc::new(std::cell::Cell::new(0u64));
    let mut heap = FibonacciHeap::new();
    for i in 1..=n {
        heap.push(Counted { value: n + 1 - i, comparisons: comparisons.clone() });
    }
    let mut last = 0;
    for _ in 0..n {
        let popped = heap.pop().unwrap();
        assert!(popped.value > last);
        last = popped.value;
    }
    assert!(heap.pop().is_none());
    // n * log2(n) is about 133_000 for n = 10_000; the constant of the
    // amortised bound is small.
    let bound = 6 * (n as u64) * 14;
    assert!(comparisons.get() <= bound, "{} comparisons", comparisons.get());
}

#[test]
fn no_two_roots_share_a_degree_after_a_pop() {
    let mut heap = FibonacciHeap::new();
    let mut x: u32 = 17;
    for step in 0..600 {
        x = x.wrapping_mul(1664525).wrapping_add(1013904223);
        if step % 5 == 4 || (step > 400 && step % 2 == 0) {
            heap.pop();
            let mut degrees = heap.root_degrees();
            let roots = degrees.len();
            degrees.sort();
            degrees.dedup();
            assert_eq!(degrees.len(), roots);
            // every tree of degree d holds 2^d values, so the degrees are
            // the places of the ones in the binary numeral of the size
            let total: usize = degrees.iter().map(|d| 1usize << d).sum();
            assert_eq!(total, heap.size());
            assert!(1usize << roots <= heap.size() + 1);
        } else {
            heap.push((x >> 8) % 100);
            let degrees = heap.root_degrees();
            assert!(!degrees.is_empty());
            let total: usize = degrees.iter().map(|d| 1usize << d).sum();
            assert_eq!(total, heap.size());
        }
    }
}

#[test]
fn pushes_and_merges_add_roots() {
    let mut a = FibonacciHeap::new();
    for v in 0..5 {
        a.push(v);
        assert_eq!(a.root_degrees().len(), v + 1);
    }
    let mut b = FibonacciHeap::new();
    for v in 0..9 {
        b.push(v);
    }
    assert_eq!(b.pop(), Some(0));
    let roots_of_b = b.root_degrees().len();
    let merged = FibonacciHeap::merge(a, b);
    assert_eq!(merged.root_degrees().len(), 5 + roots_of_b);
}

#[test]
fn roots_of_an_empty_heap() {
    let mut heap: FibonacciHeap<i32> = FibonacciHeap::new();
    assert!(heap.root_degrees().is_empty());
    heap.push(1);
    heap.push(2);
    heap.push(3);
    assert_eq!(heap.root_degrees(), vec![0, 0, 0]);
    assert_eq!(heap.pop(), Some(1));
    let mut degrees = heap.root_degrees();
    degrees.sort();
    assert_eq!(degrees, vec![1]);
    assert_eq!(heap.pop(), Some(2));
    assert_eq!(heap.root_degrees(), vec![0]);
    assert_eq!(heap.pop(), Some(3));
    assert!(heap.root_degrees().is_empty());
}
