use algorithms::sort::heap;
use algorithms::sort::insertion;
use algorithms::sort::merge;
use algorithms::sort::selection;
use algorithms::sort::{
    heap_sort, insertion_sort, insertion_sort_with_binary_search, insertion_sort_with_copy,
    merge_sort, selection_sort,
};

#[test]
fn heap_test_sort() {
    let mut arr = [-5, 4, 1, -3, 2];

    heap::sort(&mut arr);

    assert!(arr == [-5, -3, 1, 2, 4]);
}

#[test]
fn test_sort_simple() {
    let mut arr = [-5, 4, 1, -3, 2];

    insertion::sort(&mut arr);

    assert!(arr == [-5, -3, 1, 2, 4]);
}

#[test]
fn test_sort_with_copy() {
    let mut arr = [-5, 4, 1, -3, 2];

    insertion::sort_with_copy(&mut arr);

    assert!(arr == [-5, -3, 1, 2, 4]);
}

#[test]
fn test_sort_with_binary_search() {
    let mut arr = [-5, 4, 1, -3, 2];

    insertion::sort_with_binary_search(&mut arr);

    assert!(arr == [-5, -3, 1, 2, 4]);
}

#[test]
fn merge_test_sort() {
    let mut arr = [-5, 4, 1, -3, 2];

    merge::sort(&mut arr);

    assert!(arr == [-5, -3, 1, 2, 4]);
}

#[test]
fn selection_test_sort() {
    let mut arr = [-5, 4, 1, -3, 2];

    selection::sort(&mut arr);

    assert!(arr == [-5, -3, 1, 2, 4]);
}

fn scrambled(n: usize, modulus: u64) -> Vec<u64> {
    let mut x: u64 = 0x2545_f491_4f6c_dd1d;
    let mut out = Vec::new();
    for _ in 0..n {
        x ^= x << 13;
        x ^= x >> 7;
        x ^= x << 17;
        out.push(x % modulus);
    }
    out
}

#[test]
fn every_sort_agrees_with_std_on_duplicates() {
    for n in [0usize, 1, 2, 3, 7, 64, 257] {
        let input = scrambled(n, 17);
        let mut expected = input.clone();
        expected.sort();

        let mut a = input.clone();
        insertion_sort(&mut a);
        assert_eq!(a, expected);

        let mut b = input.clone();
        insertion_sort_with_copy(&mut b);
        assert_eq!(b, expected);

        let mut c = input.clone();
        insertion_sort_with_binary_search(&mut c);
        assert_eq!(c, expected);

        let mut d = input.clone();
        selection_sort(&mut d);
        assert_eq!(d, expected);

        let mut e = input.clone();
        merge_sort(&mut e);
        assert_eq!(e, expected);

        let mut f = input.clone();
        heap_sort(&mut f);
        assert_eq!(f, expected);
    }
}

#[test]
fn sort_with_copy_moves_key_to_the_front() {
    let mut arr = [2, 1];
    insertion::sort_with_copy(&mut arr);
    assert_eq!(arr, [1, 2]);
}

#[test]
fn sort_with_binary_search_handles_equal_elements() {
    let mut arr = [1, 2, 1];
    insertion::sort_with_binary_search(&mut arr);
    assert_eq!(arr, [1, 1, 2]);
}

#[test]
fn insertion_point_is_behind_equal_elements() {
    let arr = [1, 3, 3, 5, 3];
    assert_eq!(insertion::insertion_point(&arr, 4), 3);
    let arr = [1, 3, 3, 5, 0];
    assert_eq!(insertion::insertion_point(&arr, 4), 0);
    let arr = [1, 3, 3, 5, 9];
    assert_eq!(insertion::insertion_point(&arr, 4), 4);
}

#[test]
fn heap_positions() {
    assert_eq!(heap::parent(1), 0);
    assert_eq!(heap::parent(2), 0);
    assert_eq!(heap::parent(6), 2);
    assert_eq!(heap::left_child(2), 5);
    assert_eq!(heap::right_child(2), 6);
}

#[test]
fn heapify_puts_the_largest_first() {
    let mut arr = [3, 9, 2, 7, 8, 1];
    heap::heapify(&mut arr);
    assert_eq!(arr[0], 9);
    for c in 1..arr.len() {
        assert!(arr[c] <= arr[(c - 1) / 2]);
    }
}

#[test]
fn sift_down_sinks_the_root() {
    let mut arr = [1, 9, 8, 4, 5];
    heap::sift_down(&mut arr, 0, 4);
    assert_eq!(arr, [9, 5, 8, 4, 1]);
}

#[test]
fn merge_joins_sorted_halves() {
    let mut arr = [2, 6, 1, 3, 9];
    merge::merge(&mut arr);
    assert_eq!(arr, [1, 2, 3, 6, 9]);
}
