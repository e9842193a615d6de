use std::collections::HashMap;

use collectiones::lista::{
    lista_addita, lista_congrega, lista_ordinata, lista_partire, lista_praeposita, lista_ultima,
    lista_unica,
};

#[test]
fn append_adds_at_end() {
    assert_eq!(lista_addita(&[1, 2, 2], 3), vec![1, 2, 2, 3]);
    assert_eq!(lista_addita(&[], 9), vec![9]);
}

#[test]
fn prepend_adds_at_start() {
    assert_eq!(lista_praeposita(&[1, 2, 2], 0), vec![0, 1, 2, 2]);
    assert_eq!(lista_praeposita(&[], 9), vec![9]);
}

#[test]
fn sorted_orders_and_keeps_duplicates() {
    assert_eq!(lista_ordinata(&[3, 1, 2, 1]), vec![1, 1, 2, 3]);
    let empty: Vec<i32> = Vec::new();
    assert_eq!(lista_ordinata(&empty), empty);
}

#[test]
fn sorted_strings() {
    let v = vec!["pear".to_string(), "apple".to_string(), "fig".to_string()];
    assert_eq!(
        lista_ordinata(&v),
        vec!["apple".to_string(), "fig".to_string(), "pear".to_string()]
    );
}

#[test]
fn unique_keeps_first_occurrences_in_order() {
    assert_eq!(lista_unica(&[3, 1, 3, 2, 1, 4]), vec![3, 1, 2, 4]);
    assert_eq!(lista_unica(&[7, 7, 7]), vec![7]);
    let empty: Vec<i32> = Vec::new();
    assert_eq!(lista_unica(&empty), empty);
}

#[test]
fn last_n_saturates_and_takes_suffix() {
    assert_eq!(lista_ultima(&[1, 2, 3], 5), vec![1, 2, 3]);
    assert_eq!(lista_ultima(&[1, 2, 3], 0), Vec::<i32>::new());
    assert_eq!(lista_ultima(&[1, 2, 3], 2), vec![2, 3]);
    assert_eq!(lista_ultima(&[1, 2, 3], 3), vec![1, 2, 3]);
    assert_eq!(lista_ultima(&[1, 2, 3], usize::MAX), vec![1, 2, 3]);
}

#[test]
fn partition_even_and_odd() {
    let (even, odd) = lista_partire(&[1, 2, 3, 4, 5], |x: &i32| x % 2 == 0);
    assert_eq!(even, vec![2, 4]);
    assert_eq!(odd, vec![1, 3, 5]);
}

#[test]
fn partition_parts_rebuild_the_input() {
    let input = vec![5, 8, 1, 8, 3, 2];
    let (big, small) = lista_partire(&input, |x: &i32| *x > 4);
    assert_eq!(big, vec![5, 8, 8]);
    assert_eq!(small, vec![1, 3, 2]);
    let mut all: Vec<i32> = big.iter().chain(small.iter()).cloned().collect();
    let mut sorted_input = input.clone();
    all.sort();
    sorted_input.sort();
    assert_eq!(all, sorted_input);
}

#[test]
fn group_by_length() {
    let words: Vec<String> = ["a", "bb", "cc", "d"].iter().map(|s| s.to_string()).collect();
    let groups = lista_congrega(&words, |s: &String| s.len());
    let mut expected: HashMap<usize, Vec<String>> = HashMap::new();
    expected.insert(1, vec!["a".to_string(), "d".to_string()]);
    expected.insert(2, vec!["bb".to_string(), "cc".to_string()]);
    assert_eq!(groups, expected);
}

#[test]
fn group_by_of_empty_list() {
    let empty: Vec<i32> = Vec::new();
    assert!(lista_congrega(&empty, |x: &i32| *x).is_empty());
}

#[derive(Debug, Clone, PartialEq, Eq)]
struct Tagged {
    rank: u8,
    tag: char,
}

impl PartialOrd for Tagged {
    fn partial_cmp(&self, other: &Self) -> Option<std::cmp::Ordering> {
        Some(self.cmp(other))
    }
}

impl Ord for Tagged {
    fn cmp(&self, other: &Self) -> std::cmp::Ordering {
        self.rank.cmp(&other.rank)
    }
}

#[test]
fn sorted_keeps_order_of_equal_elements() {
    let t = |rank: u8, tag: char| Tagged { rank, tag };
    let input = vec![t(2, 'a'), t(1, 'b'), t(2, 'c'), t(1, 'd'), t(0, 'e')];
    let tags: Vec<char> = lista_ordinata(&input).iter().map(|x| x.tag).collect();
    assert_eq!(tags, vec!['e', 'b', 'd', 'a', 'c']);
}

#[test]
fn unique_result_has_no_repeats() {
    let r = lista_unica(&[4, 4, 2, 9, 2, 4, 1]);
    for i in 0..r.len() {
        for j in (i + 1)..r.len() {
            assert_ne!(r[i], r[j]);
        }
    }
    assert_eq!(r, vec![4, 2, 9, 1]);
}
