//! Operations on sequences.
use std::collections::{HashMap, HashSet};
use std::hash::Hash;
use vstd::prelude::*;
use vstd::std_specs::cmp::OrdSpec;

use crate::{clone_is_exact, lawful_key};

verus! {

broadcast use vstd::seq_lib::group_seq_properties;

/// Whether the predicate `pred` answers `true` for `x`.
pub open spec fn satisfies<T, F: Fn(&T) -> bool>(pred: F, x: T) -> bool {
    pred.ensures((&x,), true)
}

/// `pred` can be called on every element and answers each one the same way
/// every time.
pub open spec fn pure_predicate<T, F: Fn(&T) -> bool>(pred: F) -> bool {
    &&& forall|x: &T| #[trigger] pred.requires((x,))
    &&& forall|x: &T, b: bool, c: bool| pred.ensures((x,), b) && pred.ensures((x,), c) ==> b == c
}

/// The elements of `s` that satisfy `pred`, in order.
pub open spec fn passing<T, F: Fn(&T) -> bool>(s: Seq<T>, pred: F) -> Seq<T> {
    s.filter(|x: T| satisfies(pred, x))
}

/// The elements of `s` that do not satisfy `pred`, in order.
pub open spec fn failing<T, F: Fn(&T) -> bool>(s: Seq<T>, pred: F) -> Seq<T> {
    s.filter(|x: T| !satisfies(pred, x))
}

/// Adding one element at the end adds it to the part that it belongs to.
proof fn lemma_split_push<T, F: Fn(&T) -> bool>(s: Seq<T>, pred: F, x: T)
    ensures
        passing(s.push(x), pred) == if satisfies(pred, x) {
            passing(s, pred).push(x)
        } else {
            passing(s, pred)
        },
        failing(s.push(x), pred) == if satisfies(pred, x) {
            failing(s, pred)
        } else {
            failing(s, pred).push(x)
        },
{
    s.lemma_filter_push(x, |y: T| satisfies(pred, y));
    s.lemma_filter_push(x, |y: T| !satisfies(pred, y));
}

/// Splits `list` into the elements that satisfy `pred` and those that do
/// not, each part in the order of `list`.
pub fn lista_partire<T, F>(list: &[T], pred: F) -> (r: (Vec<T>, Vec<T>))
    where
        T: Clone,
        F: Fn(&T) -> bool,
    requires
        clone_is_exact::<T>(),
        pure_predicate(pred),
    ensures
        r.0@ == passing(list@, pred),
        r.1@ == failing(list@, pred),
{
    let mut truthy: Vec<T> = Vec::new();
    let mut falsy: Vec<T> = Vec::new();
    let mut i: usize = 0;
    while i < list.len()
        invariant
            clone_is_exact::<T>(),
            pure_predicate(pred),
            i <= list@.len(),
            truthy@ == passing(list@.take(i as int), pred),
            falsy@ == failing(list@.take(i as int), pred),
        decreases list@.len() - i,
    {
        let item = &list[i];
        let c = item.clone();
        assert(cloned(*item, c));
        let holds = pred(item);
        assert(list@.take(i + 1) == list@.take(i as int).push(*item));
        proof {
            lemma_split_push(list@.take(i as int), pred, *item);
        }
        assert(holds == satisfies(pred, *item));
        if holds {
            truthy.push(c);
        } else {
            falsy.push(c);
        }
        i = i + 1;
    }
    assert(list@.take(list@.len() as int) == list@);
    (truthy, falsy)
}

/// Whether `key_fn` gives the key `k` for `x`.
pub open spec fn keyed<T, K, F: Fn(&T) -> K>(key_fn: F, x: T, k: K) -> bool {
    key_fn.ensures((&x,), k)
}

/// `key_fn` can be called on every element and gives each one the same key
/// every time.
pub open spec fn pure_key_fn<T, K, F: Fn(&T) -> K>(key_fn: F) -> bool {
    &&& forall|x: &T| #[trigger] key_fn.requires((x,))
    &&& forall|x: T, k: K, l: K| keyed(key_fn, x, k) && keyed(key_fn, x, l) ==> k == l
}

/// The keys that `key_fn` gives the elements of `s`.
pub open spec fn keys_of<T, K, F: Fn(&T) -> K>(s: Seq<T>, key_fn: F) -> Set<K> {
    Set::new(|k: K| exists|j: int| 0 <= j < s.len() && keyed(key_fn, s[j], k))
}

/// The elements of `s` whose key is `k`, in the order of `s`.
pub open spec fn bucket<T, K, F: Fn(&T) -> K>(s: Seq<T>, key_fn: F, k: K) -> Seq<T> {
    s.filter(|x: T| keyed(key_fn, x, k))
}

/// Adding one element at the end adds it to the bucket of its own key only.
proof fn lemma_bucket_push<T, K, F: Fn(&T) -> K>(s: Seq<T>, key_fn: F, x: T, k: K)
    ensures
        bucket(s.push(x), key_fn, k) == if keyed(key_fn, x, k) {
            bucket(s, key_fn, k).push(x)
        } else {
            bucket(s, key_fn, k)
        },
{
    s.lemma_filter_push(x, |y: T| keyed(key_fn, y, k));
}

/// Groups the elements of `list` by the key that `key_fn` gives them. Each
/// key that occurs maps to its elements, in the order of `list`.
pub fn lista_congrega<T, K, F>(list: &[T], key_fn: F) -> (r: HashMap<K, Vec<T>>)
    where
        T: Clone,
        K: Eq + Hash,
        F: Fn(&T) -> K,
    requires
        clone_is_exact::<T>(),
        vstd::std_specs::hash::obeys_key_model::<K>(),
        pure_key_fn(key_fn),
    ensures
        r@.dom() == keys_of(list@, key_fn),
        forall|k: K| #[trigger] r@.contains_key(k) ==> r@[k]@ == bucket(list@, key_fn, k),
{
    let mut result: HashMap<K, Vec<T>> = HashMap::new();
    let mut i: usize = 0;
    while i < list.len()
        invariant
            clone_is_exact::<T>(),
            vstd::std_specs::hash::obeys_key_model::<K>(),
            pure_key_fn(key_fn),
            i <= list@.len(),
            result@.dom() == keys_of(list@.take(i as int), key_fn),
            forall|k: K| #[trigger] result@.contains_key(k)
                ==> result@[k]@ == bucket(list@.take(i as int), key_fn, k),
        decreases list@.len() - i,
    {
        let item = &list[i];
        let k = key_fn(item);
        assert(keyed(key_fn, *item, k));
        let c = item.clone();
        assert(cloned(*item, c));
        let ghost prefix = list@.take(i as int);
        let ghost before = result@;
        assert(list@.take(i + 1) == prefix.push(*item));
        match result.remove(&k) {
            Some(mut items) => {
                items.push(c);
                result.insert(k, items);
            },
            None => {
                let mut items: Vec<T> = Vec::new();
                items.push(c);
                result.insert(k, items);
            },
        }
        assert forall|key: K| #[trigger] result@.contains_key(key)
            implies result@[key]@ == bucket(list@.take(i + 1), key_fn, key) by {
            lemma_bucket_push(prefix, key_fn, *item, key);
            if key != k {
                assert(!keyed(key_fn, *item, key));
            } else if !before.contains_key(k) {
                assert forall|j: int| 0 <= j < prefix.len()
                    implies !keyed(key_fn, #[trigger] prefix[j], k) by {
                    if keyed(key_fn, prefix[j], k) {
                        assert(keys_of(prefix, key_fn).contains(k));
                    }
                }
                prefix.lemma_all_neg_filter_empty(|x: T| keyed(key_fn, x, k));
            }
        }
        assert(result@.dom() =~= keys_of(list@.take(i + 1), key_fn)) by {
            assert forall|key: K| keys_of(list@.take(i + 1), key_fn).contains(key)
                implies #[trigger] result@.contains_key(key) by {
                let next = list@.take(i + 1);
                let j = choose|j: int| 0 <= j < next.len() && keyed(key_fn, next[j], key);
                if j < i {
                    assert(keys_of(prefix, key_fn).contains(key));
                }
            }
            assert forall|key: K| #[trigger] result@.contains_key(key)
                implies keys_of(list@.take(i + 1), key_fn).contains(key) by {
                if key != k {
                    let j = choose|j: int| 0 <= j < prefix.len() && keyed(key_fn, prefix[j], key);
                    assert(list@.take(i + 1)[j] == prefix[j]);
                } else {
                    assert(list@.take(i + 1)[i as int] == *item);
                }
            }
        }
        i = i + 1;
    }
    assert(list@.take(list@.len() as int) == list@);
    result
}

/// A copy of `list`, element by element.
fn copy_of<T: Clone>(list: &[T]) -> (r: Vec<T>)
    requires
        clone_is_exact::<T>(),
    ensures
        r@ == list@,
{
    let mut result: Vec<T> = Vec::new();
    let mut i: usize = 0;
    while i < list.len()
        invariant
            clone_is_exact::<T>(),
            i <= list@.len(),
            result@ == list@.take(i as int),
        decreases list@.len() - i,
    {
        let c = list[i].clone();
        assert(cloned(list@[i as int], c));
        result.push(c);
        assert(list@.take(i + 1) == list@.take(i as int).push(list@[i as int]));
        i = i + 1;
    }
    assert(list@.take(list@.len() as int) == list@);
    result
}

/// `list` with `elem` added at the end.
pub fn lista_addita<T: Clone>(list: &[T], elem: T) -> (r: Vec<T>)
    requires
        clone_is_exact::<T>(),
    ensures
        r@ == list@.push(elem),
{
    let mut result = copy_of(list);
    result.push(elem);
    result
}

/// `list` with `elem` added at the start.
pub fn lista_praeposita<T: Clone>(list: &[T], elem: T) -> (r: Vec<T>)
    requires
        clone_is_exact::<T>(),
    ensures
        r@ == seq![elem] + list@,
{
    let mut result: Vec<T> = Vec::new();
    result.push(elem);
    let mut i: usize = 0;
    while i < list.len()
        invariant
            clone_is_exact::<T>(),
            i <= list@.len(),
            result@ == seq![elem] + list@.take(i as int),
        decreases list@.len() - i,
    {
        let c = list[i].clone();
        assert(cloned(list@[i as int], c));
        result.push(c);
        assert(list@.take(i + 1) == list@.take(i as int).push(list@[i as int]));
        assert(result@ =~= seq![elem] + list@.take(i + 1));
        i = i + 1;
    }
    assert(list@.take(list@.len() as int) == list@);
    result
}

/// `s` is in ascending order under the type's ordering.
pub open spec fn ascending<T: Ord>(s: Seq<T>) -> bool {
    forall|i: int, j: int| 0 <= i < j < s.len()
        ==> s[i].cmp_spec(&s[j]) != core::cmp::Ordering::Greater
}

/// `r` is `s` rearranged by `p`: position `i` of `r` holds the element at
/// position `p[i]` of `s`, and no position of `s` is used twice.
pub open spec fn rearranged_by<T>(s: Seq<T>, r: Seq<T>, p: Seq<int>) -> bool {
    &&& r.len() == s.len()
    &&& p.len() == s.len()
    &&& forall|i: int| 0 <= i < p.len() ==> 0 <= #[trigger] p[i] < s.len() && r[i] == s[p[i]]
    &&& forall|i: int, j: int| 0 <= i < j < p.len() ==> p[i] != p[j]
}

/// `r` rearranges `s` so that elements that compare equal keep their
/// relative order.
pub open spec fn stable_rearrangement<T: Ord>(s: Seq<T>, r: Seq<T>) -> bool {
    exists|p: Seq<int>|
        #[trigger] rearranged_by(s, r, p) && forall|i: int, j: int|
            0 <= i < j < r.len() && r[i].cmp_spec(&r[j]) == core::cmp::Ordering::Equal
                ==> p[i] < p[j]
}

/// Relies on `slice::sort`: it puts the elements in ascending order, keeping
/// the relative order of equal ones, and neither adds nor drops any.
#[verifier::external_body]
fn sort_ascending<T: Ord>(v: &mut Vec<T>)
    requires
        vstd::laws_cmp::obeys_cmp::<T>(),
    ensures
        final(v)@.to_multiset() == old(v)@.to_multiset(),
        ascending(final(v)@),
        stable_rearrangement(old(v)@, final(v)@),
{
    v.sort();
}

/// The elements of `list`, duplicates included, in ascending order; equal
/// elements keep their relative order.
pub fn lista_ordinata<T: Clone + Ord>(list: &[T]) -> (r: Vec<T>)
    requires
        clone_is_exact::<T>(),
        vstd::laws_cmp::obeys_cmp::<T>(),
    ensures
        r@.to_multiset() == list@.to_multiset(),
        ascending(r@),
        stable_rearrangement(list@, r@),
{
    let mut result = copy_of(list);
    sort_ascending(&mut result);
    result
}

/// The first occurrence of each distinct element of `s`, in the order of `s`.
pub open spec fn first_occurrences<T>(s: Seq<T>) -> Seq<T>
    decreases s.len(),
{
    if s.len() == 0 {
        Seq::empty()
    } else if s.drop_last().contains(s.last()) {
        first_occurrences(s.drop_last())
    } else {
        first_occurrences(s.drop_last()).push(s.last())
    }
}

/// `list` without repeats: the first occurrence of each element stays, in
/// the order of `list`.
pub fn lista_unica<T: Clone + Eq + Hash>(list: &[T]) -> (r: Vec<T>)
    requires
        lawful_key::<T>(),
    ensures
        r@ == first_occurrences(list@),
{
    let mut seen: HashSet<T> = HashSet::new();
    let mut result: Vec<T> = Vec::new();
    let mut i: usize = 0;
    while i < list.len()
        invariant
            lawful_key::<T>(),
            i <= list@.len(),
            seen@ == list@.take(i as int).to_set(),
            result@ == first_occurrences(list@.take(i as int)),
        decreases list@.len() - i,
    {
        let item = &list[i];
        let key = item.clone();
        assert(cloned(*item, key));
        let prefix = Ghost(list@.take(i as int));
        assert(list@.take(i + 1).drop_last() =~= prefix@);
        if seen.insert(key) {
            let c = item.clone();
            assert(cloned(*item, c));
            result.push(c);
        }
        proof {
            prefix@.lemma_push_to_set_commute(*item);
        }
        assert(list@.take(i + 1) == prefix@.push(*item));
        i = i + 1;
    }
    assert(list@.take(list@.len() as int) == list@);
    result
}

/// The last `n` elements of `s`, or all of `s` where it is shorter.
pub open spec fn last_n<T>(s: Seq<T>, n: nat) -> Seq<T> {
    if n >= s.len() {
        s
    } else {
        s.skip(s.len() - n)
    }
}

/// The last `n` elements of `list`, in order; all of `list` when `n`
/// exceeds its length.
pub fn lista_ultima<T: Clone>(list: &[T], n: usize) -> (r: Vec<T>)
    requires
        clone_is_exact::<T>(),
    ensures
        r@ == last_n(list@, n as nat),
{
    let start = list.len().saturating_sub(n);
    let mut result: Vec<T> = Vec::new();
    let mut i: usize = start;
    while i < list.len()
        invariant
            clone_is_exact::<T>(),
            start <= i <= list@.len(),
            start == if n >= list@.len() { 0 } else { list@.len() - n },
            result@ == list@.subrange(start as int, i as int),
        decreases list@.len() - i,
    {
        let c = list[i].clone();
        assert(cloned(list@[i as int], c));
        result.push(c);
        assert(list@.subrange(start as int, i + 1)
            == list@.subrange(start as int, i as int).push(list@[i as int]));
        i = i + 1;
    }
    assert(list@.subrange(0, list@.len() as int) == list@);
    result
}

/// The two parts of a split hold, together, the elements of `s` with their
/// multiplicities; every element of the first part satisfies `pred` and no
/// element of the second does. Each part keeps the order of `s`, being a
/// filter of it.
pub proof fn law_partition_permutes<T, F: Fn(&T) -> bool>(s: Seq<T>, pred: F)
    ensures
        (passing(s, pred) + failing(s, pred)).to_multiset() == s.to_multiset(),
        forall|i: int| 0 <= i < passing(s, pred).len()
            ==> satisfies(pred, #[trigger] passing(s, pred)[i]),
        forall|i: int| 0 <= i < failing(s, pred).len()
            ==> !satisfies(pred, #[trigger] failing(s, pred)[i]),
    decreases s.len(),
{
    if s.len() == 0 {
        assert(passing(s, pred) =~= Seq::<T>::empty());
        assert(failing(s, pred) =~= Seq::<T>::empty());
        assert(passing(s, pred) + failing(s, pred) =~= s);
    } else {
        let init = s.drop_last();
        let x = s.last();
        law_partition_permutes(init, pred);
        assert(init.push(x) == s);
        lemma_split_push(init, pred, x);
        let p = passing(init, pred);
        let f = failing(init, pred);
        if satisfies(pred, x) {
            assert(p.push(x) + f =~= (p + f).insert(p.len() as int, x));
            vstd::seq_lib::to_multiset_insert(p + f, p.len() as int, x);
        } else {
            assert(p + f.push(x) =~= (p + f).push(x));
        }
        assert(init.push(x).to_multiset() == init.to_multiset().insert(x));
    }
    s.filter_lemma(|x: T| satisfies(pred, x));
    s.filter_lemma(|x: T| !satisfies(pred, x));
}

/// Removing repeats leaves no element twice, and loses no element.
pub proof fn law_unique_no_repeats<T>(s: Seq<T>)
    ensures
        first_occurrences(s).no_duplicates(),
        first_occurrences(s).to_set() == s.to_set(),
    decreases s.len(),
{
    if s.len() > 0 {
        let init = s.drop_last();
        let x = s.last();
        law_unique_no_repeats(init);
        assert(init.push(x) == s);
        init.lemma_push_to_set_commute(x);
        if !init.contains(x) {
            first_occurrences(init).lemma_push_to_set_commute(x);
            assert(!first_occurrences(init).contains(x)) by {
                if first_occurrences(init).contains(x) {
                    let j = choose|j: int| 0 <= j < first_occurrences(init).len()
                        && first_occurrences(init)[j] == x;
                    assert(first_occurrences(init).to_set().contains(x));
                }
            }
        } else {
            assert(init.to_set().contains(x));
            assert(init.to_set().insert(x) =~= init.to_set());
        }
    } else {
        assert(first_occurrences(s).to_set() =~= s.to_set());
    }
}

/// Asking for at least as many elements as a sequence holds gives all of it;
/// asking for none gives none.
pub proof fn law_last_n_bounds<T>(s: Seq<T>, n: nat)
    ensures
        n >= s.len() ==> last_n(s, n) == s,
        last_n(s, 0) == Seq::<T>::empty(),
{
    if s.len() > 0 {
        assert(last_n(s, 0) =~= Seq::<T>::empty());
    } else {
        assert(s =~= Seq::<T>::empty());
    }
}

} // verus!
