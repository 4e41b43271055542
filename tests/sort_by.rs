use bitonic_sorter::SortOrder::{Ascending, Descending};
use bitonic_sorter::{
    is_sorted_ascending, is_sorted_descending, new_u32_vec, sort, sort_by, sort_by_with_threshold,
    SortError,
};

#[derive(Debug, PartialEq)]
struct Student {
    first_name: String,
    last_name: String,
    age: u8,
}

impl Student {
    fn new(first_name: &str, last_name: &str, age: u8) -> Self {
        Self {
            first_name: first_name.to_string(),
            last_name: last_name.to_string(),
            age,
        }
    }
}

#[test]
fn sort_u32_large() {
    {
        let mut x = new_u32_vec(65536);
        assert_eq!(sort(&mut x, &Ascending), Ok(()));
        assert!(is_sorted_ascending(&x));
    }
    {
        let mut x = new_u32_vec(65536);
        assert_eq!(sort(&mut x, &Descending), Ok(()));
        assert!(is_sorted_descending(&x));
    }
}

#[test]
fn sort_student_by_age_ascending() {
    let taro = Student::new("Taro", "Yamada", 16);
    let hanako = Student::new("Hanako", "Yamada", 14);
    let kyoko = Student::new("Kyoko", "Ito", 15);
    let ryosuke = Student::new("Ryosuke", "Hayashi", 17);

    let mut x = vec![&taro, &hanako, &kyoko, &ryosuke];
    let expected = vec![&hanako, &kyoko, &taro, &ryosuke];

    assert_eq!(sort_by(&mut x, &|a, b| a.age.cmp(&b.age)), Ok(()));
    assert_eq!(x, expected);
}

#[test]
fn sort_student_by_name_ascending() {
    let taro = Student::new("Taro", "Yamada", 16);
    let hanako = Student::new("Hanako", "Yamada", 14);
    let kyoko = Student::new("Kyoko", "Ito", 15);
    let ryosuke = Student::new("Ryosuke", "Hayashi", 17);

    let mut x = vec![&taro, &hanako, &kyoko, &ryosuke];
    let expected = vec![&ryosuke, &kyoko, &hanako, &taro];

    assert_eq!(
        sort_by(&mut x, &|a, b| a
            .last_name
            .cmp(&b.last_name)
            .then_with(|| a.first_name.cmp(&b.first_name))),
        Ok(())
    );
    assert_eq!(x, expected);
}

#[test]
fn composite_key_gives_lexicographic_order() {
    let mut x: Vec<(u32, String)> = vec![
        (2, "b".to_string()),
        (1, "z".to_string()),
        (2, "a".to_string()),
        (0, "m".to_string()),
        (1, "a".to_string()),
        (2, "c".to_string()),
        (0, "a".to_string()),
        (1, "m".to_string()),
    ];
    let r = sort_by(&mut x, &|a: &(u32, String), b: &(u32, String)| {
        a.0.cmp(&b.0).then_with(|| a.1.cmp(&b.1))
    });
    assert_eq!(r, Ok(()));
    let keys: Vec<(u32, &str)> = x.iter().map(|p| (p.0, p.1.as_str())).collect();
    assert_eq!(
        keys,
        vec![(0, "a"), (0, "m"), (1, "a"), (1, "m"), (1, "z"), (2, "a"), (2, "b"), (2, "c")]
    );
}

#[test]
fn threshold_does_not_change_the_result() {
    let input = new_u32_vec(1024);
    let mut forked = input.clone();
    let mut sequential = input.clone();
    assert_eq!(sort_by_with_threshold(&mut forked, &|a: &u32, b: &u32| a.cmp(b), 1), Ok(()));
    assert_eq!(
        sort_by_with_threshold(&mut sequential, &|a: &u32, b: &u32| a.cmp(b), 4096),
        Ok(())
    );
    assert_eq!(forked, sequential);
    assert!(is_sorted_ascending(&forked));
}

#[test]
fn threshold_does_not_change_the_order_of_ties() {
    let input: Vec<(u32, u32)> = (0..256u32).map(|i| ((i * 7) % 5, i)).collect();
    let mut forked = input.clone();
    let mut sequential = input.clone();
    let by_key = |a: &(u32, u32), b: &(u32, u32)| a.0.cmp(&b.0);
    assert_eq!(sort_by_with_threshold(&mut forked, &by_key, 1), Ok(()));
    assert_eq!(sort_by_with_threshold(&mut sequential, &by_key, 1000), Ok(()));
    assert_eq!(forked, sequential);
    assert!(forked.windows(2).all(|w| w[0].0 <= w[1].0));
}

#[test]
fn sort_by_refuses_bad_length() {
    let mut x: Vec<u32> = vec![4, 2, 9, 1, 7, 3];
    assert_eq!(
        sort_by(&mut x, &|a: &u32, b: &u32| b.cmp(a)),
        Err(SortError::LengthNotPowerOfTwo(6))
    );
    assert_eq!(x, vec![4, 2, 9, 1, 7, 3]);
}

#[test]
fn sort_by_reversed_comparator_sorts_descending() {
    let mut x: Vec<u32> = vec![10, 30, 11, 20, 4, 330, 21, 110];
    assert_eq!(sort_by(&mut x, &|a: &u32, b: &u32| b.cmp(a)), Ok(()));
    assert_eq!(x, vec![330, 110, 30, 21, 20, 11, 10, 4]);
}

#[test]
fn validators_on_small_inputs() {
    let empty: Vec<u32> = vec![];
    assert!(is_sorted_ascending(&empty));
    assert!(is_sorted_descending(&empty));
    assert!(is_sorted_ascending(&[1u32, 1, 2, 5]));
    assert!(!is_sorted_ascending(&[1u32, 3, 2]));
    assert!(is_sorted_descending(&[5u32, 5, 2, 0]));
    assert!(!is_sorted_descending(&[5u32, 6, 2]));
}

#[test]
fn generator_is_reproducible() {
    let a = new_u32_vec(64);
    let b = new_u32_vec(64);
    assert_eq!(a.len(), 64);
    assert_eq!(a, b);
    assert!(a.iter().any(|v| *v != a[0]));
    assert_eq!(new_u32_vec(0).len(), 0);
    assert_eq!(&new_u32_vec(128)[..64], &a[..]);
}
