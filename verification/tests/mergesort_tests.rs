use lessons::mergesort::{in_place_merge, in_place_merge_old, merge_sort};

fn is_sorted<T: Ord>(v: &[T]) -> bool {
    v.windows(2).all(|w| w[0] <= w[1])
}

fn sorted_copy<T: Ord + Clone>(v: &[T]) -> Vec<T> {
    let mut c = v.to_vec();
    c.sort();
    c
}

#[test]
fn merge_sort_empty_and_single() {
    let mut empty: Vec<i32> = vec![];
    merge_sort(&mut empty);
    assert!(empty.is_empty());
    let mut one = vec![42];
    merge_sort(&mut one);
    assert_eq!(one, vec![42]);
}

#[test]
fn merge_sort_numbers() {
    let mut v = vec![5, 2, 9, 1, 5, 6, -3, 0];
    merge_sort(&mut v);
    assert_eq!(v, vec![-3, 0, 1, 2, 5, 5, 6, 9]);
}

#[test]
fn merge_sort_reverse_odd_length() {
    let mut v: Vec<u32> = (0..37).rev().collect();
    merge_sort(&mut v);
    assert_eq!(v, (0..37).collect::<Vec<u32>>());
}

#[test]
fn merge_sort_already_sorted() {
    let mut v: Vec<i64> = (0..20).collect();
    merge_sort(&mut v);
    assert_eq!(v, (0..20).collect::<Vec<i64>>());
}

#[test]
fn merge_sort_strings() {
    let mut v = vec!["pear", "apple", "fig", "banana", "apple"];
    merge_sort(&mut v);
    assert_eq!(v, vec!["apple", "apple", "banana", "fig", "pear"]);
}

#[test]
fn merge_sort_is_a_sorted_permutation_on_many_inputs() {
    let mut seed: u64 = 12345;
    for len in 0..70usize {
        let mut v: Vec<u16> = Vec::new();
        for _ in 0..len {
            seed = seed.wrapping_mul(6364136223846793005).wrapping_add(1442695040888963407);
            v.push((seed >> 55) as u16);
        }
        let expected = sorted_copy(&v);
        merge_sort(&mut v);
        assert!(is_sorted(&v));
        assert_eq!(v, expected);
    }
}

#[test]
fn merge_sort_works_on_a_subslice() {
    let mut v = vec![9, 8, 7, 6, 5, 4];
    merge_sort(&mut v[1..5]);
    assert_eq!(v, vec![9, 5, 6, 7, 8, 4]);
}

#[test]
fn in_place_merge_two_runs() {
    let mut v = vec![100, 1, 4, 9, 2, 3, 10, -1];
    in_place_merge(&mut v, 1, 4, 7);
    assert_eq!(v, vec![100, 1, 2, 3, 4, 9, 10, -1]);
}

#[test]
fn in_place_merge_with_mid_past_right_changes_nothing() {
    let mut v = vec![1, 2, 3, 0];
    in_place_merge(&mut v, 0, 6, 3);
    assert_eq!(v, vec![1, 2, 3, 0]);
}

#[test]
fn in_place_merge_old_two_runs() {
    let mut v = vec![3, 5, 8, 1, 2, 9];
    in_place_merge_old(&mut v, 0, 3, 6);
    assert_eq!(v, vec![1, 2, 3, 5, 8, 9]);
}

#[test]
fn both_merges_agree() {
    let mut a = vec![2, 4, 4, 7, 1, 4, 5, 8, 8];
    let mut b = a.clone();
    in_place_merge(&mut a, 0, 4, 9);
    in_place_merge_old(&mut b, 0, 4, 9);
    assert_eq!(a, b);
    assert_eq!(a, vec![1, 2, 4, 4, 4, 5, 7, 8, 8]);
}

#[test]
fn both_merges_agree_on_unsorted_runs() {
    let mut a = vec![5, 1, 9, 2, 8, 3, 7];
    let mut b = a.clone();
    in_place_merge(&mut a, 1, 3, 6);
    in_place_merge_old(&mut b, 1, 3, 6);
    assert_eq!(a, b);
    assert_eq!(a, vec![5, 1, 2, 8, 3, 9, 7]);
}

#[test]
fn in_place_merge_with_mid_at_or_before_left_changes_nothing() {
    let mut v = vec![4, 3, 2, 1];
    in_place_merge(&mut v, 2, 2, 4);
    assert_eq!(v, vec![4, 3, 2, 1]);
    in_place_merge_old(&mut v, 3, 1, 4);
    assert_eq!(v, vec![4, 3, 2, 1]);
}

/// A value ordered by its key alone; the tag tells apart elements with equal keys.
#[derive(Debug, Clone, Copy)]
struct Keyed {
    key: u8,
    tag: char,
}

impl PartialEq for Keyed {
    fn eq(&self, other: &Self) -> bool {
        self.key == other.key
    }
}

impl Eq for Keyed {}

impl PartialOrd for Keyed {
    fn partial_cmp(&self, other: &Self) -> Option<std::cmp::Ordering> {
        Some(self.cmp(other))
    }
}

impl Ord for Keyed {
    fn cmp(&self, other: &Self) -> std::cmp::Ordering {
        self.key.cmp(&other.key)
    }
}

fn keyed(items: &[(u8, char)]) -> Vec<Keyed> {
    items.iter().map(|&(key, tag)| Keyed { key, tag }).collect()
}

fn tags(v: &[Keyed]) -> String {
    v.iter().map(|k| k.tag).collect()
}

#[test]
fn merge_sort_is_stable() {
    let mut v = keyed(&[(2, 'a'), (1, 'b'), (2, 'c'), (1, 'd'), (0, 'e'), (2, 'f'), (1, 'g')]);
    merge_sort(&mut v);
    assert_eq!(tags(&v), "ebdgacf");
}

#[test]
fn merge_keeps_left_run_first_among_equals() {
    let mut a = keyed(&[(1, 'a'), (3, 'b'), (1, 'c'), (3, 'd')]);
    let mut b = a.clone();
    in_place_merge(&mut a, 0, 2, 4);
    in_place_merge_old(&mut b, 0, 2, 4);
    assert_eq!(tags(&a), "acbd");
    assert_eq!(tags(&b), "acbd");
}

#[test]
fn merge_sort_leaves_sorted_input_with_equal_keys_as_it_is() {
    let mut v = keyed(&[(0, 'x'), (0, 'y'), (1, 'z'), (1, 'w'), (1, 'v')]);
    merge_sort(&mut v);
    assert_eq!(tags(&v), "xyzwv");
    merge_sort(&mut v);
    assert_eq!(tags(&v), "xyzwv");
}
