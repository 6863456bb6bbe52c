use bitonic_sorter::length::validate_length;
use bitonic_sorter::parallel::{sort, sort_by};
use bitonic_sorter::SortOrder::{Ascending, Descending};

fn refusal(n: usize) -> String {
    format!("The length of x is not a power of two. (x.len(): {})", n)
}

#[test]
fn empty_slice_is_accepted() {
    let mut x: Vec<u32> = Vec::new();
    assert_eq!(sort(&mut x, &Ascending), Ok(()));
    assert!(x.is_empty());
    assert_eq!(sort(&mut x, &Descending), Ok(()));
    assert_eq!(sort_by(&mut x, &|a: &u32, b: &u32| a.cmp(b)), Ok(()));
}

#[test]
fn single_element_is_accepted() {
    let mut x: Vec<u32> = vec![7];
    assert_eq!(sort(&mut x, &Ascending), Ok(()));
    assert_eq!(x, vec![7]);
    assert_eq!(sort(&mut x, &Descending), Ok(()));
    assert_eq!(x, vec![7]);
}

#[test]
fn two_elements_are_ordered() {
    let mut x: Vec<u32> = vec![9, 3];
    assert_eq!(sort(&mut x, &Ascending), Ok(()));
    assert_eq!(x, vec![3, 9]);
    assert_eq!(sort(&mut x, &Descending), Ok(()));
    assert_eq!(x, vec![9, 3]);
}

#[test]
fn refused_length_reports_three() {
    let mut x = vec![10, 30, 11];
    assert_eq!(
        sort(&mut x, &Ascending),
        Err("The length of x is not a power of two. (x.len(): 3)".to_string())
    );
}

#[test]
fn refused_length_is_written_in_decimal() {
    for n in [3usize, 5, 6, 7, 9, 10, 12, 100, 1000, 1023, 1025, 4097] {
        let mut x: Vec<u32> = (0..n as u32).rev().collect();
        assert_eq!(sort(&mut x, &Descending), Err(refusal(n)));
        assert_eq!(sort_by(&mut x, &|a: &u32, b: &u32| a.cmp(b)), Err(refusal(n)));
    }
}

#[test]
fn refused_slice_is_left_unchanged() {
    for n in [3usize, 5, 6, 7, 9, 10, 12, 100] {
        let before: Vec<u32> = (0..n as u32).map(|i| (i * 7919) % 31).collect();
        let mut x = before.clone();
        assert!(sort(&mut x, &Ascending).is_err());
        assert_eq!(x, before);
        assert!(sort(&mut x, &Descending).is_err());
        assert_eq!(x, before);
        assert!(sort_by(&mut x, &|a: &u32, b: &u32| b.cmp(a)).is_err());
        assert_eq!(x, before);
    }
}

#[test]
fn refused_slice_never_reaches_the_comparator() {
    let mut x = vec![3, 1, 2];
    let r = sort_by(&mut x, &|_: &i32, _: &i32| panic!("compared"));
    assert!(r.is_err());
    assert_eq!(x, vec![3, 1, 2]);
}

#[test]
fn validate_length_accepts_zero_and_powers_of_two() {
    assert_eq!(validate_length(0), Ok(()));
    let mut n: usize = 1;
    loop {
        assert_eq!(validate_length(n), Ok(()));
        match n.checked_mul(2) {
            Some(next) => n = next,
            None => break,
        }
    }
}

#[test]
fn validate_length_refuses_other_lengths() {
    assert_eq!(validate_length(3), Err(refusal(3)));
    assert_eq!(validate_length(6), Err(refusal(6)));
    assert_eq!(validate_length(65535), Err(refusal(65535)));
    assert_eq!(validate_length(65537), Err(refusal(65537)));
    assert_eq!(validate_length(usize::MAX), Err(refusal(usize::MAX)));
    assert_eq!(
        validate_length(12),
        Err("The length of x is not a power of two. (x.len(): 12)".to_string())
    );
}
