use std::collections::HashMap;

use collectiones::tabula::{
    tabula_conflata, tabula_in_lista, tabula_inversa, tabula_omissa, tabula_selecta,
};

fn map_of(entries: &[(&str, i64)]) -> HashMap<String, i64> {
    let mut m = HashMap::new();
    for (k, v) in entries {
        m.insert(k.to_string(), *v);
    }
    m
}

#[test]
fn merge_second_wins_on_shared_key() {
    let a = map_of(&[("a", 1), ("b", 2)]);
    let b = map_of(&[("b", 3), ("c", 4)]);
    let r = tabula_conflata(&a, &b);
    assert_eq!(r, map_of(&[("a", 1), ("b", 3), ("c", 4)]));
}

#[test]
fn merge_keeps_every_key_of_both() {
    let a = map_of(&[("x", 10), ("y", 20)]);
    let b = map_of(&[("z", 30)]);
    let r = tabula_conflata(&a, &b);
    assert_eq!(r.len(), 3);
    assert_eq!(r["x"], 10);
    assert_eq!(r["y"], 20);
    assert_eq!(r["z"], 30);
    assert_eq!(a.len(), 2);
}

#[test]
fn merge_with_empty_maps() {
    let a = map_of(&[("a", 1)]);
    let e: HashMap<String, i64> = HashMap::new();
    assert_eq!(tabula_conflata(&a, &e), a);
    assert_eq!(tabula_conflata(&e, &a), a);
    assert!(tabula_conflata(&e, &e).is_empty());
}

#[test]
fn invert_swaps_keys_and_values() {
    let m = map_of(&[("a", 1), ("b", 2)]);
    let r = tabula_inversa(&m);
    assert_eq!(r.len(), 2);
    assert_eq!(r[&1], "a");
    assert_eq!(r[&2], "b");
}

#[test]
fn invert_twice_gives_back_one_to_one_map() {
    let m = map_of(&[("a", 1), ("b", 2), ("c", 3)]);
    assert_eq!(tabula_inversa(&tabula_inversa(&m)), m);
}

#[test]
fn invert_keeps_one_of_colliding_keys() {
    let m = map_of(&[("a", 7), ("b", 7)]);
    let r = tabula_inversa(&m);
    assert_eq!(r.len(), 1);
    assert!(r[&7] == "a" || r[&7] == "b");
}

#[test]
fn select_keeps_listed_keys_and_ignores_absent_ones() {
    let m = map_of(&[("a", 1), ("b", 2), ("c", 3)]);
    let keys = vec!["a".to_string(), "c".to_string(), "zz".to_string()];
    assert_eq!(tabula_selecta(&m, &keys), map_of(&[("a", 1), ("c", 3)]));
}

#[test]
fn omit_drops_listed_keys_and_ignores_absent_ones() {
    let m = map_of(&[("a", 1), ("b", 2), ("c", 3)]);
    let keys = vec!["a".to_string(), "zz".to_string()];
    assert_eq!(tabula_omissa(&m, &keys), map_of(&[("b", 2), ("c", 3)]));
}

#[test]
fn select_and_omit_split_the_entries() {
    let m = map_of(&[("a", 1), ("b", 2), ("c", 3), ("d", 4)]);
    let keys = vec!["b".to_string(), "d".to_string(), "q".to_string()];
    let s = tabula_selecta(&m, &keys);
    let o = tabula_omissa(&m, &keys);
    assert_eq!(s.len() + o.len(), m.len());
    for (k, v) in &m {
        assert!(s.get(k) == Some(v) || o.get(k) == Some(v));
        assert!(!(s.contains_key(k) && o.contains_key(k)));
    }
}

#[test]
fn select_with_no_keys_is_empty() {
    let m = map_of(&[("a", 1)]);
    let keys: Vec<String> = Vec::new();
    assert!(tabula_selecta(&m, &keys).is_empty());
    assert_eq!(tabula_omissa(&m, &keys), m);
}

#[test]
fn to_pairs_lists_each_entry_once() {
    let m = map_of(&[("a", 1), ("b", 2), ("c", 3)]);
    let mut pairs = tabula_in_lista(&m);
    pairs.sort();
    assert_eq!(
        pairs,
        vec![("a".to_string(), 1), ("b".to_string(), 2), ("c".to_string(), 3)]
    );
}

#[test]
fn to_pairs_of_empty_map() {
    let m: HashMap<String, i64> = HashMap::new();
    assert!(tabula_in_lista(&m).is_empty());
}
