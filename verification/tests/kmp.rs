use algorithms::search::kmp::{
    build_table, find_all, find_all_with_table, find_first, find_first_with_table,
};

fn find_first_test_cases() -> Vec<(Option<usize>, &'static str, &'static str)> {
    vec![
        (Some(0), "abcd", "abcd"),
        (Some(1), "abcd", "bcd"),
        (Some(10), "abc abcde abcdef", "abcdef"),
        (None, "abcd", "dcba"),
    ]
}

fn find_all_test_cases() -> Vec<(Vec<usize>, &'static str, &'static str)> {
    vec![
        (vec![0, 1, 2], "aaa", "a"),
        (vec![0, 1], "aaa", "aa"),
        (vec![1], "abcd", "bcd"),
        (vec![0, 4, 10], "abc abcde abcdef", "abc"),
        (vec![], "abcd", "bcda"),
    ]
}

#[test]
fn test_assert_find_first_test_cases() {
    for (e, t, p) in find_first_test_cases() {
        assert_eq!(e, find_first(t.as_bytes(), p.as_bytes()));
    }
}

#[test]
fn test_assert_find_all_test_cases() {
    for (e, t, p) in find_all_test_cases() {
        assert_eq!(e, find_all(t.as_bytes(), p.as_bytes()));
    }
}

#[test]
fn test_find_first_test_cases() {
    for (e, t, p) in find_first_test_cases() {
        assert_eq!(e, find_first(t.as_bytes(), p.as_bytes()));
    }
}

#[test]
fn test_find_all_test_cases() {
    for (e, t, p) in find_all_test_cases() {
        assert_eq!(e, find_all(t.as_bytes(), p.as_bytes()));
    }
}

#[test]
fn build_table_gives_border_lengths() {
    assert_eq!(build_table("abcabd".as_bytes()), vec![-1, 0, 0, 0, 1, 2]);
    assert_eq!(build_table("aaaa".as_bytes()), vec![-1, 0, 1, 2]);
    assert_eq!(build_table("a".as_bytes()), vec![-1]);
    assert_eq!(build_table("abab".as_bytes()), vec![-1, 0, 0, 1]);
    let nothing: [u8; 0] = [];
    assert_eq!(build_table(&nothing), vec![-1]);
}

#[test]
fn searches_with_a_given_table() {
    let pattern = "aba".as_bytes();
    let table = build_table(pattern);
    let target = "xabababa".as_bytes();
    assert_eq!(find_first_with_table(target, pattern, &table), Some(1));
    assert_eq!(find_all_with_table(target, pattern, &table), vec![1, 3, 5]);
    assert_eq!(find_first_with_table("ab".as_bytes(), pattern, &table), None);
    assert_eq!(find_all_with_table("ab".as_bytes(), pattern, &table), Vec::<usize>::new());
}

#[test]
fn search_agrees_with_the_naive_one() {
    let alphabet = [b'a', b'b'];
    let mut x: u32 = 99;
    for _ in 0..200 {
        let mut target = Vec::new();
        let mut pattern = Vec::new();
        for _ in 0..12 {
            x = x.wrapping_mul(1664525).wrapping_add(1013904223);
            target.push(alphabet[(x >> 16) as usize % 2]);
        }
        x = x.wrapping_mul(1664525).wrapping_add(1013904223);
        let m = 1 + (x >> 16) as usize % 4;
        for _ in 0..m {
            x = x.wrapping_mul(1664525).wrapping_add(1013904223);
            pattern.push(alphabet[(x >> 16) as usize % 2]);
        }
        let mut expected = Vec::new();
        for at in 0..=(target.len() - m) {
            if target[at..at + m] == pattern[..] {
                expected.push(at);
            }
        }
        assert_eq!(find_all(&target, &pattern), expected);
        assert_eq!(find_first(&target, &pattern), expected.first().copied());
    }
}

#[test]
fn empty_target_and_long_pattern() {
    let nothing: [u8; 0] = [];
    assert_eq!(find_first(&nothing, "a".as_bytes()), None);
    assert_eq!(find_first(&nothing, &nothing), None);
    assert_eq!(find_all(&nothing, &nothing), Vec::<usize>::new());
    assert_eq!(find_first("ab".as_bytes(), "abc".as_bytes()), None);
    assert_eq!(find_all("abc".as_bytes(), "abc".as_bytes()), vec![0]);
}
