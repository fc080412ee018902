use algorithms::select::qselect::{partition_by, SORT_THRESH};
use algorithms::select::{
    in_order, in_order_by, median, median_by, median_inplace, median_inplace_by, median_of_3,
    median_of_3_by, qselect, qselect_by, qselect_inplace, qselect_inplace_by,
};

#[test]
fn test_median() {
    let cases = [
        (1, 2, 3, 2),
        (1, 3, 2, 2),
        (2, 1, 3, 2),
        (2, 3, 1, 2),
        (3, 1, 2, 2),
        (3, 2, 1, 2),
    ];
    for (x, y, z, expected) in cases {
        let result = median_of_3(&x, &y, &z);
        assert_eq!(*result, expected);
    }
}

#[test]
fn test_qsel() {
    {
        let mut data = [1, 2, 3, 4, 5];
        let selected = qselect_inplace(&mut data, 3);
        assert_eq!(*selected, 4);
    }
    {
        let mut data = [5, 4, 3, 2, 1];
        let selected = qselect_inplace(&mut data, 1);
        assert_eq!(*selected, 2);
    }
    {
        let mut data = [2, 2, 3, 3, 4];
        let selected = qselect_inplace(&mut data, 1);
        assert_eq!(*selected, 2);
    }
}

fn scrambled(n: usize, modulus: i64, seed: u64) -> Vec<i64> {
    let mut x: u64 = seed;
    let mut out = Vec::new();
    for _ in 0..n {
        x ^= x << 13;
        x ^= x >> 7;
        x ^= x << 17;
        out.push((x % modulus as u64) as i64);
    }
    out
}

#[test]
fn in_order_swaps_only_what_is_out_of_order() {
    let (mut a, mut b) = (5, 3);
    in_order(&mut a, &mut b);
    assert_eq!((a, b), (3, 5));
    in_order(&mut a, &mut b);
    assert_eq!((a, b), (3, 5));
    let (mut a, mut b) = (4, 4);
    in_order(&mut a, &mut b);
    assert_eq!((a, b), (4, 4));
}

#[test]
fn in_order_by_follows_the_ordering_function() {
    let (mut a, mut b) = (3, 5);
    in_order_by(&mut a, &mut b, |l: &i32, r: &i32| r.cmp(l));
    assert_eq!((a, b), (5, 3));
    in_order_by(&mut a, &mut b, |l: &i32, r: &i32| r.cmp(l));
    assert_eq!((a, b), (5, 3));
    let (mut a, mut b) = ((1, 'x'), (1, 'y'));
    in_order_by(&mut a, &mut b, |l: &(i32, char), r: &(i32, char)| l.0.cmp(&r.0));
    assert_eq!((a, b), ((1, 'x'), (1, 'y')));
}

#[test]
fn median_of_3_by_uses_the_ordering_function() {
    let by_len = |l: &&str, r: &&str| l.len().cmp(&r.len());
    assert_eq!(median_of_3_by("aaa", "b", "cc", by_len), "cc");
    assert_eq!(median_of_3_by("b", "cc", "aaa", by_len), "cc");
    assert_eq!(median_of_3(7, 7, 1), 7);
    assert_eq!(median_of_3(1, 7, 7), 7);
    assert_eq!(median_of_3(4, 4, 4), 4);
}

#[test]
fn qselect_finds_every_rank() {
    for n in [1usize, 2, 5, 6, 7, 20, 97] {
        let data = scrambled(n, 23, 0x9e37_79b9_7f4a_7c15 ^ n as u64);
        let mut expected = data.clone();
        expected.sort();
        for k in 0..n {
            assert_eq!(*qselect(&data, k), expected[k]);
            let mut scratch = data.clone();
            assert_eq!(*qselect_inplace(&mut scratch, k), expected[k]);
            assert_eq!(scratch[k], expected[k]);
            for i in 0..k {
                assert!(scratch[i] <= scratch[k]);
            }
            for i in k..n {
                assert!(scratch[i] >= scratch[k]);
            }
            scratch.sort();
            assert_eq!(scratch, expected);
        }
    }
}

#[test]
fn qselect_by_with_a_reversed_order() {
    let data = scrambled(40, 1000, 42);
    let mut expected = data.clone();
    expected.sort();
    expected.reverse();
    let reversed = |l: &i64, r: &i64| r.cmp(l);
    for k in [0usize, 1, 17, 39] {
        assert_eq!(*qselect_by(&data, k, reversed), expected[k]);
        let mut scratch = data.clone();
        assert_eq!(*qselect_inplace_by(&mut scratch, k, reversed), expected[k]);
        assert_eq!(scratch[k], expected[k]);
    }
}

#[test]
fn qselect_leaves_the_slice_alone() {
    let data = scrambled(30, 50, 7);
    let copy = data.clone();
    let _ = qselect(&data, 12);
    assert_eq!(data, copy);
}

#[test]
fn returned_reference_is_the_kth_place() {
    let mut data = [9, 1, 8, 2, 7, 3, 6, 4, 5];
    {
        let place = qselect_inplace(&mut data, 4);
        assert_eq!(*place, 5);
        *place = 100;
    }
    assert_eq!(data[4], 100);
}

#[test]
fn medians() {
    let data = [5, 1, 4, 2, 3];
    assert_eq!(*median(&data), 3);
    let even = [4, 1, 3, 2];
    assert_eq!(*median(&even), 3);
    assert_eq!(*median(&[7]), 7);
    assert_eq!(*median_by(&data, |l: &i32, r: &i32| r.cmp(l)), 3);
    assert_eq!(*median_by(&even, |l: &i32, r: &i32| r.cmp(l)), 2);
    let mut scratch = [5, 1, 4, 2, 3, 9, 8];
    assert_eq!(*median_inplace(&mut scratch), 4);
    assert_eq!(scratch[3], 4);
    let mut scratch = [5, 1, 4, 2, 3, 9, 8, 0];
    assert_eq!(*median_inplace_by(&mut scratch, |l: &i32, r: &i32| r.cmp(l)), 3);
    assert_eq!(scratch[4], 3);
}

#[test]
fn partition_splits_around_the_pivot() {
    assert_eq!(SORT_THRESH, 6);
    let mut data = scrambled(50, 30, 1234);
    let mut expected = data.clone();
    expected.sort();
    let by = |l: &i64, r: &i64| l.cmp(r);
    let p = partition_by(&mut data, &by);
    assert!(p < data.len());
    for i in 0..p {
        assert!(data[i] < data[p]);
    }
    for i in p..data.len() {
        assert!(data[i] >= data[p]);
    }
    data.sort();
    assert_eq!(data, expected);
}
