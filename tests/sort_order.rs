use bitonic_sorter::SortOrder::{Ascending, Descending};
use bitonic_sorter::{sort, SortError};

#[test]
fn second_sort_u32_ascending() {
    let mut x: Vec<u32> = vec![10, 30, 11, 20, 4, 330, 21, 110];
    assert_eq!(sort(&mut x, &Ascending), Ok(()));
    assert_eq!(x, vec![4, 10, 11, 20, 21, 30, 110, 330]);
}

#[test]
fn second_sort_u32_descending() {
    let mut x: Vec<u32> = vec![10, 30, 11, 20, 4, 330, 21, 110];
    assert_eq!(sort(&mut x, &Descending), Ok(()));
    assert_eq!(x, vec![330, 110, 30, 21, 20, 11, 10, 4]);
}

#[test]
fn second_sort_str_ascending() {
    let mut x = vec!["Rust", "is", "fast", "and", "memory-efficient", "with", "no", "GC"];
    assert_eq!(sort(&mut x, &Ascending), Ok(()));
    assert_eq!(
        x,
        vec!["GC", "Rust", "and", "fast", "is", "memory-efficient", "no", "with"]
    );
}

#[test]
fn second_sort_str_descending() {
    let mut x = vec!["Rust", "is", "a", "system", "programming", "language", "that", "runs"];
    assert_eq!(sort(&mut x, &Descending), Ok(()));
    assert_eq!(
        x,
        vec!["that", "system", "runs", "programming", "language", "is", "a", "Rust"]
    );
}

#[test]
fn second_sort_to_fail() {
    let mut x = vec![10, 30, 11];
    assert!(sort(&mut x, &Ascending).is_err());
}

#[test]
fn fourth_sort_u32_ascending() {
    let mut x: Vec<u32> = vec![10, 30, 11, 20, 4, 330, 21, 110];
    assert_eq!(sort(&mut x, &Ascending), Ok(()));
    assert_eq!(x, vec![4, 10, 11, 20, 21, 30, 110, 330]);
}

#[test]
fn fourth_sort_u32_descending() {
    let mut x: Vec<u32> = vec![10, 30, 11, 20, 4, 330, 21, 110];
    assert_eq!(sort(&mut x, &Descending), Ok(()));
    assert_eq!(x, vec![330, 110, 30, 21, 20, 11, 10, 4]);
}

#[test]
fn fourth_sort_str_ascending() {
    let mut x = vec!["Rust", "is", "fast", "and", "memory-efficient", "with", "no", "GC"];
    assert_eq!(sort(&mut x, &Ascending), Ok(()));
    assert_eq!(
        x,
        vec!["GC", "Rust", "and", "fast", "is", "memory-efficient", "no", "with"]
    );
}

#[test]
fn fourth_sort_str_descending() {
    let mut x = vec!["Rust", "is", "a", "system", "programming", "language", "that", "runs"];
    assert_eq!(sort(&mut x, &Descending), Ok(()));
    assert_eq!(
        x,
        vec!["that", "system", "runs", "programming", "language", "is", "a", "Rust"]
    );
}

#[test]
fn fourth_sort_to_fail() {
    let mut x = vec![10, 30, 11];
    assert!(sort(&mut x, &Ascending).is_err());
}

#[test]
fn length_three_is_refused_and_left_alone() {
    let mut x: Vec<u32> = vec![10, 30, 11];
    assert_eq!(sort(&mut x, &Ascending), Err(SortError::LengthNotPowerOfTwo(3)));
    assert_eq!(x, vec![10, 30, 11]);
}

#[test]
fn other_bad_lengths_are_refused_and_left_alone() {
    for n in [0usize, 5, 6, 1000] {
        let original: Vec<u32> = (0..n as u32).rev().collect();
        let mut x = original.clone();
        assert_eq!(sort(&mut x, &Descending), Err(SortError::LengthNotPowerOfTwo(n)));
        assert_eq!(x, original);
    }
}

#[test]
fn single_element_and_pair() {
    let mut one: Vec<u32> = vec![7];
    assert_eq!(sort(&mut one, &Descending), Ok(()));
    assert_eq!(one, vec![7]);
    let mut two: Vec<u32> = vec![9, 2];
    assert_eq!(sort(&mut two, &Ascending), Ok(()));
    assert_eq!(two, vec![2, 9]);
    assert_eq!(sort(&mut two, &Descending), Ok(()));
    assert_eq!(two, vec![9, 2]);
}

#[test]
fn equal_keys_are_kept() {
    let mut x: Vec<u32> = vec![5, 1, 5, 3, 1, 5, 3, 1];
    assert_eq!(sort(&mut x, &Ascending), Ok(()));
    assert_eq!(x, vec![1, 1, 1, 3, 3, 5, 5, 5]);
    assert_eq!(sort(&mut x, &Descending), Ok(()));
    assert_eq!(x, vec![5, 5, 5, 3, 3, 1, 1, 1]);
}

#[test]
fn sorting_sorted_input_again_changes_nothing() {
    let mut x: Vec<u32> = vec![4, 10, 11, 20, 21, 30, 110, 330];
    assert_eq!(sort(&mut x, &Ascending), Ok(()));
    assert_eq!(x, vec![4, 10, 11, 20, 21, 30, 110, 330]);
    let mut y: Vec<u32> = vec![3, 1, 2, 2, 9, 0, 7, 7, 4, 4, 8, 6, 5, 1, 0, 3];
    assert_eq!(sort(&mut y, &Ascending), Ok(()));
    let once = y.clone();
    assert_eq!(sort(&mut y, &Ascending), Ok(()));
    assert_eq!(y, once);
}

#[test]
fn sorting_only_permutes() {
    let original: Vec<u32> = vec![9, 3, 3, 0, 12, 7, 7, 7, 1, 4, 4, 2, 8, 0, 5, 11];
    let mut x = original.clone();
    assert_eq!(sort(&mut x, &Descending), Ok(()));
    let mut expected = original.clone();
    expected.sort();
    expected.reverse();
    assert_eq!(x, expected);
}
