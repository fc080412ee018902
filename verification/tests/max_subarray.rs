use algorithms::search::max_subarray;
use algorithms::search::max_subarray::{cross_max_subarray, cross_part_max, max_subarray_rec};

#[test]
fn max_subarray_test_simple() {
    let arr = [13, -3, -25, 20, -3, -16, -23, 18, 20, -7, 12, -5, -22, 15, -4, 7];

    let (low, high, sum) = max_subarray(&arr);

    assert_eq!(low, 7);
    assert_eq!(high, 10);
    assert_eq!(sum, 43);
}

#[test]
fn max_subarray_of_one_element() {
    assert_eq!(max_subarray(&[-4]), (0, 0, -4));
    assert_eq!(max_subarray(&[4u8]), (0, 0, 4));
}

#[test]
fn max_subarray_of_negative_elements_is_the_largest() {
    assert_eq!(max_subarray(&[-3, -1, -2]), (1, 1, -1));
}

#[test]
fn max_subarray_is_the_best_of_all() {
    let mut x: u32 = 2463534242;
    for n in 1usize..24 {
        let mut arr: Vec<i64> = Vec::new();
        for _ in 0..n {
            x ^= x << 13;
            x ^= x >> 17;
            x ^= x << 5;
            arr.push((x % 41) as i64 - 20);
        }
        let (low, high, sum) = max_subarray(&arr);
        assert!(low <= high && high < n);
        assert_eq!(arr[low..=high].iter().sum::<i64>(), sum);
        for i in 0..n {
            for j in i..n {
                assert!(arr[i..=j].iter().sum::<i64>() <= sum);
            }
        }
        assert_eq!(max_subarray_rec(&arr, 0, n - 1), (low, high, sum));
    }
}

#[test]
fn cross_parts() {
    let arr = [2, -1, 3, -4, 5, -9, 1];
    // upwards from 3: -4, 1, -8, -7
    assert_eq!(cross_part_max(&arr, 3, 6), (4, 1));
    // downwards from 2: 3, 2, 4
    assert_eq!(cross_part_max(&arr, 2, 0), (0, 4));
    assert_eq!(cross_part_max(&arr, 5, 5), (5, -9));
    assert_eq!(cross_max_subarray(&arr, 0, 2, 6), (0, 4, 5));
    // of two runs with the same sum the shorter one is taken
    assert_eq!(cross_part_max(&[1, 0, 0], 0, 2), (0, 1));
}
