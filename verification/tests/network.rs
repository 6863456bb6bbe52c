use std::cmp::Ordering;

use bitonic_sorter::parallel::{compare_and_swap, do_sort, sort, sort_by, sub_sort, PARALLEL_THRESHOLD};
use bitonic_sorter::SortOrder::{Ascending, Descending};

fn scrambled(n: usize, seed: u64, modulus: u32) -> Vec<u32> {
    let mut state: u64 = seed | 1;
    let mut v = Vec::with_capacity(n);
    for _ in 0..n {
        state ^= state << 13;
        state ^= state >> 7;
        state ^= state << 17;
        v.push(((state >> 20) as u32) % modulus);
    }
    v
}

fn natural(a: &u32, b: &u32) -> Ordering {
    a.cmp(b)
}

fn by_key(a: &(u32, char), b: &(u32, char)) -> Ordering {
    a.0.cmp(&b.0)
}

// The same network, built from single passes and run on one thread.
fn merge_on_one_thread(x: &mut [u32], is_asc: bool) {
    if x.len() > 1 {
        compare_and_swap(x, is_asc, &natural);
        let mid = x.len() / 2;
        let (first, second) = x.split_at_mut(mid);
        merge_on_one_thread(first, is_asc);
        merge_on_one_thread(second, is_asc);
    }
}

fn sort_on_one_thread(x: &mut [u32], is_asc: bool) {
    if x.len() > 1 {
        let mid = x.len() / 2;
        let (first, second) = x.split_at_mut(mid);
        sort_on_one_thread(first, true);
        sort_on_one_thread(second, false);
        merge_on_one_thread(x, is_asc);
    }
}

#[test]
fn threshold_is_4096() {
    assert_eq!(PARALLEL_THRESHOLD, 4096);
}

#[test]
fn compare_and_swap_ascending_exchanges_on_greater() {
    let mut x: Vec<u32> = vec![7, 2, 5, 9];
    compare_and_swap(&mut x, true, &natural);
    assert_eq!(x, vec![5, 2, 7, 9]);
}

#[test]
fn compare_and_swap_descending_exchanges_on_less() {
    let mut x: Vec<u32> = vec![7, 2, 5, 9];
    compare_and_swap(&mut x, false, &natural);
    assert_eq!(x, vec![7, 9, 5, 2]);
}

#[test]
fn compare_and_swap_keeps_pairs_called_equal() {
    let mut x = vec![(1, 'a'), (2, 'b'), (1, 'c'), (2, 'd')];
    compare_and_swap(&mut x, true, &by_key);
    assert_eq!(x, vec![(1, 'a'), (2, 'b'), (1, 'c'), (2, 'd')]);
    compare_and_swap(&mut x, false, &by_key);
    assert_eq!(x, vec![(1, 'a'), (2, 'b'), (1, 'c'), (2, 'd')]);
}

#[test]
fn compare_and_swap_odd_length_keeps_last() {
    let mut x: Vec<u32> = vec![9, 8, 1, 2, 0];
    compare_and_swap(&mut x, true, &natural);
    assert_eq!(x, vec![1, 2, 9, 8, 0]);
    let mut y: Vec<u32> = vec![4, 6, 5];
    compare_and_swap(&mut y, false, &natural);
    assert_eq!(y, vec![6, 4, 5]);
}

#[test]
fn compare_and_swap_short_slices_stay() {
    let mut x: Vec<u32> = vec![];
    compare_and_swap(&mut x, true, &natural);
    assert!(x.is_empty());
    let mut y: Vec<u32> = vec![3];
    compare_and_swap(&mut y, true, &natural);
    assert_eq!(y, vec![3]);
}

#[test]
fn sub_sort_merges_rise_then_fall() {
    let mut x: Vec<u32> = vec![1, 4, 6, 8, 7, 5, 3, 2];
    sub_sort(&mut x, true, &natural);
    assert_eq!(x, vec![1, 2, 3, 4, 5, 6, 7, 8]);
    let mut y: Vec<u32> = vec![1, 4, 6, 8, 7, 5, 3, 2];
    sub_sort(&mut y, false, &natural);
    assert_eq!(y, vec![8, 7, 6, 5, 4, 3, 2, 1]);
}

#[test]
fn sub_sort_merges_rotated_bitonic() {
    let mut x: Vec<u32> = vec![6, 8, 7, 5, 3, 2, 1, 4];
    sub_sort(&mut x, true, &natural);
    assert_eq!(x, vec![1, 2, 3, 4, 5, 6, 7, 8]);
    let mut y: Vec<u32> = vec![3, 2, 1, 4, 6, 8, 7, 5];
    sub_sort(&mut y, false, &natural);
    assert_eq!(y, vec![8, 7, 6, 5, 4, 3, 2, 1]);
}

#[test]
fn sub_sort_keeps_elements_of_any_slice() {
    let before: Vec<u32> = vec![5, 1, 4, 1, 5, 9, 2];
    let mut x = before.clone();
    sub_sort(&mut x, true, &natural);
    let mut got = x.clone();
    got.sort_unstable();
    let mut want = before.clone();
    want.sort_unstable();
    assert_eq!(got, want);
}

#[test]
fn do_sort_orders_in_both_directions() {
    let mut x: Vec<u32> = vec![10, 30, 11, 20, 4, 330, 21, 110];
    do_sort(&mut x, true, &natural);
    assert_eq!(x, vec![4, 10, 11, 20, 21, 30, 110, 330]);
    let mut y: Vec<u32> = vec![10, 30, 11, 20, 4, 330, 21, 110];
    do_sort(&mut y, false, &natural);
    assert_eq!(y, vec![330, 110, 30, 21, 20, 11, 10, 4]);
}

#[test]
fn sort_by_reversed_comparator_descends() {
    let mut x: Vec<u32> = vec![10, 30, 11, 20, 4, 330, 21, 110];
    assert_eq!(sort_by(&mut x, &|a: &u32, b: &u32| b.cmp(a)), Ok(()));
    assert_eq!(x, vec![330, 110, 30, 21, 20, 11, 10, 4]);
}

#[test]
fn descending_is_ascending_reversed() {
    let before = scrambled(1024, 11, 5000);
    let mut up = before.clone();
    let mut down = before.clone();
    assert_eq!(sort(&mut up, &Ascending), Ok(()));
    assert_eq!(sort(&mut down, &Descending), Ok(()));
    up.reverse();
    assert_eq!(up, down);
}

#[test]
fn sort_keeps_every_element_with_its_count() {
    for (n, modulus) in [(4usize, 3u32), (64, 7), (1024, 50), (16384, 1000)] {
        let before = scrambled(n, 3, modulus);
        let mut want = before.clone();
        want.sort_unstable();
        let mut x = before.clone();
        assert_eq!(sort(&mut x, &Ascending), Ok(()));
        assert_eq!(x, want);
        let mut y = before.clone();
        assert_eq!(sort(&mut y, &Descending), Ok(()));
        want.reverse();
        assert_eq!(y, want);
    }
}

#[test]
fn sort_by_key_keeps_records_and_orders_keys() {
    let keys = scrambled(256, 5, 16);
    let before: Vec<(u32, usize)> = keys.iter().copied().zip(0..).collect();
    let mut x = before.clone();
    assert_eq!(sort_by(&mut x, &|a: &(u32, usize), b: &(u32, usize)| a.0.cmp(&b.0)), Ok(()));
    assert!(x.windows(2).all(|w| w[0].0 <= w[1].0));
    let mut got = x.clone();
    got.sort_unstable();
    let mut want = before.clone();
    want.sort_unstable();
    assert_eq!(got, want);
}

#[test]
fn sorting_a_sorted_slice_changes_nothing() {
    let mut x: Vec<u32> = vec![4, 10, 11, 20, 21, 30, 110, 330];
    assert_eq!(sort(&mut x, &Ascending), Ok(()));
    assert_eq!(x, vec![4, 10, 11, 20, 21, 30, 110, 330]);
    let mut y: Vec<u32> = vec![330, 110, 30, 21, 20, 11, 10, 4];
    assert_eq!(sort(&mut y, &Descending), Ok(()));
    assert_eq!(y, vec![330, 110, 30, 21, 20, 11, 10, 4]);
    let mut z = scrambled(2048, 17, 100);
    assert_eq!(sort(&mut z, &Ascending), Ok(()));
    let once = z.clone();
    assert_eq!(sort(&mut z, &Ascending), Ok(()));
    assert_eq!(z, once);
}

#[test]
fn records_called_equal_may_change_places() {
    let mut x = vec![(0, 'a'), (0, 'b'), (0, 'c'), (1, 'd'), (1, 'e'), (2, 'f'), (2, 'g'), (3, 'h')];
    assert_eq!(sort_by(&mut x, &by_key), Ok(()));
    assert_eq!(
        x,
        vec![(0, 'a'), (0, 'b'), (0, 'c'), (1, 'd'), (1, 'e'), (2, 'g'), (2, 'f'), (3, 'h')]
    );
}

#[test]
fn sort_with_repeated_values() {
    let mut x: Vec<u32> = vec![2, 1, 2, 1, 1, 2, 2, 1];
    assert_eq!(sort(&mut x, &Ascending), Ok(()));
    assert_eq!(x, vec![1, 1, 1, 1, 2, 2, 2, 2]);
    let mut y: Vec<u32> = vec![5; 16];
    assert_eq!(sort(&mut y, &Descending), Ok(()));
    assert_eq!(y, vec![5; 16]);
}

#[test]
fn upper_case_sorts_before_lower_case() {
    let mut x = vec!["b", "A", "a", "B"];
    assert_eq!(sort(&mut x, &Ascending), Ok(()));
    assert_eq!(x, vec!["A", "B", "a", "b"]);
    let mut y = vec!["and", "GC", "fast", "Rust"];
    assert_eq!(sort(&mut y, &Ascending), Ok(()));
    assert_eq!(y, vec!["GC", "Rust", "and", "fast"]);
}

#[test]
fn second_key_settles_ties_of_the_first() {
    let mut x = vec![(2, 'b'), (1, 'z'), (2, 'a'), (1, 'y'), (3, 'c'), (2, 'c'), (1, 'x'), (3, 'a')];
    let two_keys = |a: &(u32, char), b: &(u32, char)| a.0.cmp(&b.0).then_with(|| a.1.cmp(&b.1));
    assert_eq!(sort_by(&mut x, &two_keys), Ok(()));
    assert_eq!(
        x,
        vec![(1, 'x'), (1, 'y'), (1, 'z'), (2, 'a'), (2, 'b'), (2, 'c'), (3, 'a'), (3, 'c')]
    );
}

#[test]
fn halves_run_by_the_pool_give_the_network_of_one_thread() {
    for n in [2 * PARALLEL_THRESHOLD, 4 * PARALLEL_THRESHOLD, 16 * PARALLEL_THRESHOLD] {
        let before = scrambled(n, 29, u32::MAX);
        let mut pooled = before.clone();
        assert_eq!(sort(&mut pooled, &Ascending), Ok(()));
        let mut single = before.clone();
        sort_on_one_thread(&mut single, true);
        assert_eq!(pooled, single);
        let mut want = before.clone();
        want.sort_unstable();
        assert_eq!(pooled, want);

        let mut pooled_down = before.clone();
        assert_eq!(sort(&mut pooled_down, &Descending), Ok(()));
        let mut single_down = before.clone();
        sort_on_one_thread(&mut single_down, false);
        assert_eq!(pooled_down, single_down);
    }
}

#[test]
fn pooled_sort_by_key_matches_one_thread_record_for_record() {
    let n = 4 * PARALLEL_THRESHOLD;
    let keys = scrambled(n, 31, 64);
    let mut pooled: Vec<u32> = keys.clone();
    let mut single: Vec<u32> = keys.clone();
    let coarse = |a: &u32, b: &u32| (a / 4).cmp(&(b / 4));
    assert_eq!(sort_by(&mut pooled, &coarse), Ok(()));
    single_thread_by(&mut single, true, &coarse);
    assert_eq!(pooled, single);
    assert!(pooled.windows(2).all(|w| w[0] / 4 <= w[1] / 4));
}

fn single_thread_merge_by(x: &mut [u32], is_asc: bool, f: &dyn Fn(&u32, &u32) -> Ordering) {
    if x.len() > 1 {
        compare_and_swap(x, is_asc, &|a: &u32, b: &u32| f(a, b));
        let mid = x.len() / 2;
        let (first, second) = x.split_at_mut(mid);
        single_thread_merge_by(first, is_asc, f);
        single_thread_merge_by(second, is_asc, f);
    }
}

fn single_thread_by(x: &mut [u32], is_asc: bool, f: &dyn Fn(&u32, &u32) -> Ordering) {
    if x.len() > 1 {
        let mid = x.len() / 2;
        let (first, second) = x.split_at_mut(mid);
        single_thread_by(first, true, f);
        single_thread_by(second, false, f);
        single_thread_merge_by(x, is_asc, f);
    }
}
