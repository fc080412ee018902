use algorithms::order::{at_least, greater, less, same};
use algorithms::slices::swap;

#[test]
fn comparisons_are_those_of_the_type() {
    assert!(less(&1, &2));
    assert!(!less(&2, &2));
    assert!(!less(&3, &2));
    assert!(greater(&3, &2));
    assert!(!greater(&2, &2));
    assert!(!greater(&1, &2));
    assert!(at_least(&2, &2));
    assert!(at_least(&3, &2));
    assert!(!at_least(&1, &2));
    assert!(same(&"a", &"a"));
    assert!(!same(&"a", &"b"));
}

#[test]
fn incomparable_values_are_neither_below_nor_above() {
    let nan = f64::NAN;
    assert!(!less(&nan, &1.0));
    assert!(!greater(&nan, &1.0));
    assert!(!at_least(&nan, &1.0));
    assert!(!same(&nan, &nan));
}

#[test]
fn swap_exchanges_two_elements() {
    let mut data = [String::from("a"), String::from("b"), String::from("c")];
    swap(&mut data, 0, 2);
    assert_eq!(data, ["c", "b", "a"]);
    swap(&mut data, 2, 1);
    assert_eq!(data, ["c", "a", "b"]);
    swap(&mut data, 1, 1);
    assert_eq!(data, ["c", "a", "b"]);
}
