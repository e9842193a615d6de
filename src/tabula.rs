//! Operations on mappings.
use std::collections::{HashMap, HashSet};
use std::hash::Hash;
use vstd::prelude::*;

use crate::{clone_is_exact, lawful_key};

verus! {

broadcast use vstd::std_specs::hash::group_hash_axioms;

/// `s` walks over the entries of `m`: each of its pairs is an entry of `m`,
/// and each key of `m` turns up in it.
spec fn walks_entries<K, V>(m: Map<K, V>, s: Seq<(&K, &V)>) -> bool {
    &&& forall|j: int|
        0 <= j < s.len() ==> #[trigger] m.contains_key(*s[j].0) && m[*s[j].0] == *s[j].1
    &&& forall|k: K| m.contains_key(k) ==> exists|j: int| 0 <= j < s.len() && *s[j].0 == k
}

/// The keys among the first `n` pairs of `s`.
spec fn keys_before<K, V>(s: Seq<(&K, &V)>, n: int) -> Set<K> {
    Set::new(|k: K| exists|j: int| 0 <= j < n && *s[j].0 == k)
}

/// Merges two mappings: every entry of `a`, with the entries of `b` laid on
/// top, so that `b`'s value wins on a shared key.
pub fn tabula_conflata<K, V>(a: &HashMap<K, V>, b: &HashMap<K, V>) -> (r: HashMap<K, V>)
    where
        K: Clone + Eq + Hash,
        V: Clone,
    requires
        lawful_key::<K>(),
        clone_is_exact::<V>(),
    ensures
        r@ == a@.union_prefer_right(b@),
{
    let mut result = a.clone();
    for (k, v) in it: b.iter()
        invariant
            lawful_key::<K>(),
            clone_is_exact::<V>(),
            it.index() <= it.seq().len(),
            walks_entries(b@, it.seq()),
            result@ == a@.union_prefer_right(b@.restrict(keys_before(it.seq(), it.index()))),
    {
        let kc = k.clone();
        let vc = v.clone();
        assert(cloned(*k, kc));
        assert(cloned(*v, vc));
        result.insert(kc, vc);
    }
    result
}

/// `s` lists the entries of `m`: each once, in some order.
pub open spec fn lists_entries<K, V>(m: Map<K, V>, s: Seq<(K, V)>) -> bool {
    &&& s.len() == m.dom().len()
    &&& forall|i: int| 0 <= i < s.len() ==> #[trigger] m.contains_key(s[i].0) && m[s[i].0] == s[i].1
    &&& forall|k: K| #[trigger] m.contains_key(k) ==> exists|i: int| 0 <= i < s.len() && s[i].0 == k
    &&& forall|i: int, j: int| 0 <= i < j < s.len() ==> s[i].0 != s[j].0
}

/// `r` maps each value of `m` to a key that `m` maps to that value.
pub open spec fn inverts<K, V>(m: Map<K, V>, r: Map<V, K>) -> bool {
    &&& r.dom() == m.values()
    &&& forall|v: V| #[trigger] r.contains_key(v) ==> m.contains_key(r[v]) && m[r[v]] == v
}

/// Swaps keys and values. Where several keys share a value, the result maps
/// that value to one of them; which one is left open.
pub fn tabula_inversa<K, V>(map: &HashMap<K, V>) -> (r: HashMap<V, K>)
    where
        K: Clone,
        V: Clone + Eq + Hash,
    requires
        clone_is_exact::<K>(),
        lawful_key::<V>(),
        vstd::std_specs::hash::obeys_key_model::<K>(),
    ensures
        inverts(map@, r@),
{
    let mut result: HashMap<V, K> = HashMap::new();
    for (k, v) in it: map.iter()
        invariant
            clone_is_exact::<K>(),
            lawful_key::<V>(),
            it.index() <= it.seq().len(),
            walks_entries(map@, it.seq()),
            forall|val: V| #[trigger] result@.contains_key(val)
                <==> exists|j: int| 0 <= j < it.index() && *it.seq()[j].1 == val,
            forall|val: V| #[trigger] result@.contains_key(val)
                ==> map@.contains_key(result@[val]) && map@[result@[val]] == val,
            forall|key: K| #[trigger] map@.contains_key(key)
                && (exists|j: int| 0 <= j < it.index() && *it.seq()[j].0 == key)
                    ==> result@.contains_key(map@[key]),
            it.index() == it.seq().len() ==> forall|key: K| #[trigger] map@.contains_key(key)
                ==> result@.contains_key(map@[key]),
    {
        let vc = v.clone();
        let kc = k.clone();
        assert(cloned(*k, kc));
        assert(cloned(*v, vc));
        result.insert(vc, kc);
    }
    assert forall|val: V| map@.values().contains(val)
        implies #[trigger] result@.contains_key(val) by {
        let key = choose|key: K| map@.contains_key(key) && map@[key] == val;
        assert(result@.contains_key(map@[key]));
    }
    assert(result@.dom() =~= map@.values());
    result
}

/// Collects the keys of `keys` into a hash set, so that a membership test
/// costs one lookup.
fn key_set<K>(keys: &[K]) -> (r: HashSet<K>)
    where
        K: Clone + Eq + Hash,
    requires
        lawful_key::<K>(),
    ensures
        r@ == keys@.to_set(),
{
    let mut set: HashSet<K> = HashSet::new();
    let mut i: usize = 0;
    while i < keys.len()
        invariant
            lawful_key::<K>(),
            i <= keys@.len(),
            set@ == keys@.take(i as int).to_set(),
        decreases keys@.len() - i,
    {
        let kc = keys[i].clone();
        assert(cloned(keys@[i as int], kc));
        set.insert(kc);
        assert(keys@.take(i + 1) == keys@.take(i as int).push(keys@[i as int]));
        proof { keys@.take(i as int).lemma_push_to_set_commute(keys@[i as int]); }
        i = i + 1;
    }
    assert(keys@.take(keys@.len() as int) == keys@);
    set
}

/// Keeps the entries whose key appears in `keys`. Keys of `keys` that `map`
/// lacks are ignored.
pub fn tabula_selecta<K, V>(map: &HashMap<K, V>, keys: &[K]) -> (r: HashMap<K, V>)
    where
        K: Clone + Eq + Hash,
        V: Clone,
    requires
        lawful_key::<K>(),
        clone_is_exact::<V>(),
    ensures
        r@ == map@.restrict(keys@.to_set()),
{
    let wanted = key_set(keys);
    let mut result: HashMap<K, V> = HashMap::new();
    for (k, v) in it: map.iter()
        invariant
            lawful_key::<K>(),
            clone_is_exact::<V>(),
            wanted@ == keys@.to_set(),
            it.index() <= it.seq().len(),
            walks_entries(map@, it.seq()),
            result@ == map@.restrict(keys@.to_set()).restrict(
                keys_before(it.seq(), it.index()),
            ),
    {
        if wanted.contains(k) {
            let kc = k.clone();
            let vc = v.clone();
            assert(cloned(*k, kc));
            assert(cloned(*v, vc));
            result.insert(kc, vc);
        }
    }
    result
}

/// Drops the entries whose key appears in `keys`. Keys of `keys` that `map`
/// lacks are ignored.
pub fn tabula_omissa<K, V>(map: &HashMap<K, V>, keys: &[K]) -> (r: HashMap<K, V>)
    where
        K: Clone + Eq + Hash,
        V: Clone,
    requires
        lawful_key::<K>(),
        clone_is_exact::<V>(),
    ensures
        r@ == map@.remove_keys(keys@.to_set()),
{
    let unwanted = key_set(keys);
    let mut result: HashMap<K, V> = HashMap::new();
    for (k, v) in it: map.iter()
        invariant
            lawful_key::<K>(),
            clone_is_exact::<V>(),
            unwanted@ == keys@.to_set(),
            it.index() <= it.seq().len(),
            walks_entries(map@, it.seq()),
            result@ == map@.remove_keys(keys@.to_set()).restrict(
                keys_before(it.seq(), it.index()),
            ),
    {
        if !unwanted.contains(k) {
            let kc = k.clone();
            let vc = v.clone();
            assert(cloned(*k, kc));
            assert(cloned(*v, vc));
            result.insert(kc, vc);
        }
    }
    result
}

/// Lists the entries of `map` as key/value pairs, each once. Their order is
/// the map's own iteration order, which is left open.
pub fn tabula_in_lista<K, V>(map: &HashMap<K, V>) -> (r: Vec<(K, V)>)
    where
        K: Clone,
        V: Clone,
    requires
        clone_is_exact::<K>(),
        clone_is_exact::<V>(),
        vstd::std_specs::hash::obeys_key_model::<K>(),
    ensures
        lists_entries(map@, r@),
{
    let mut result: Vec<(K, V)> = Vec::new();
    for (k, v) in it: map.iter()
        invariant
            clone_is_exact::<K>(),
            clone_is_exact::<V>(),
            it.index() <= it.seq().len(),
            result@.len() == it.index(),
            it.seq().len() == map@.dom().len(),
            it.seq().no_duplicates(),
            walks_entries(map@, it.seq()),
            forall|i: int| 0 <= i < result@.len() ==> #[trigger] map@.contains_key(result@[i].0)
                && map@[result@[i].0] == result@[i].1,
            forall|i: int, j: int| 0 <= i < j < result@.len() ==> result@[i].0 != result@[j].0,
            forall|key: K| #[trigger] map@.contains_key(key)
                ==> (exists|i: int| 0 <= i < result@.len() && result@[i].0 == key)
                || (exists|j: int| it.index() <= j < it.seq().len() && *it.seq()[j].0 == key),
            forall|j: int| 0 <= j < it.index() ==> #[trigger] result@[j]
                == (*it.seq()[j].0, *it.seq()[j].1),
    {
        let kc = k.clone();
        let vc = v.clone();
        assert(cloned(*k, kc));
        assert(cloned(*v, vc));
        let ghost before = result@;
        result.push((kc, vc));
        assert forall|key: K| #[trigger] map@.contains_key(key)
            implies (exists|i: int| 0 <= i < result@.len() && result@[i].0 == key)
            || (exists|j: int| it.index() + 1 <= j < it.seq().len() && *it.seq()[j].0 == key) by {
            let n = it.index() as int;
            if exists|i: int| 0 <= i < n && before[i].0 == key {
                let i = choose|i: int| 0 <= i < n && before[i].0 == key;
                assert(result@[i] == before[i]);
            } else {
                let j = choose|j: int| n <= j < it.seq().len() && *it.seq()[j].0 == key;
                if j == n {
                    assert(result@[n].0 == key);
                }
            }
        }
        assert forall|i: int, j: int| 0 <= i < j < result@.len() && result@[i].0 == result@[j].0
            implies false by {
            assert(map@.contains_key(*it.seq()[i].0));
            assert(map@.contains_key(*it.seq()[j].0));
            assert(it.seq()[i] == it.seq()[j]);
        }
    }
    result
}

/// A merge holds every key of both mappings, and on a key that both hold it
/// takes the value of the second.
pub proof fn law_merge_keeps_keys<K, V>(a: Map<K, V>, b: Map<K, V>)
    ensures
        a.union_prefer_right(b).dom() == a.dom().union(b.dom()),
        forall|k: K| #[trigger] b.contains_key(k) ==> a.union_prefer_right(b)[k] == b[k],
        forall|k: K| #[trigger] a.contains_key(k) && !b.contains_key(k)
            ==> a.union_prefer_right(b)[k] == a[k],
{
    assert(a.union_prefer_right(b).dom() =~= a.dom().union(b.dom()));
}

/// Inverting a mapping whose values are all distinct, and then inverting the
/// result, gives back the mapping.
pub proof fn law_invert_twice<K, V>(m: Map<K, V>, r: Map<V, K>, rr: Map<K, V>)
    requires
        m.is_injective(),
        inverts(m, r),
        inverts(r, rr),
    ensures
        rr == m,
{
    assert forall|k: K| m.contains_key(k)
        implies #[trigger] r.values().contains(k) && r[m[k]] == k by {
        assert(m.values().contains(m[k]));
        assert(r.contains_key(m[k]));
        assert(m[r[m[k]]] == m[k]);
    }
    assert forall|k: K| r.values().contains(k) implies #[trigger] m.contains_key(k) by {
        let v = choose|v: V| r.contains_key(v) && r[v] == k;
    }
    assert(rr.dom() =~= m.dom());
    assert forall|k: K| #[trigger] rr.contains_key(k) implies rr[k] == m[k] by {
        assert(r.contains_key(rr[k]) && r[rr[k]] == k);
    }
    assert(rr =~= m);
}

/// Selecting and omitting the same keys split a mapping in two: every entry
/// lands in exactly one part, and keys that the mapping lacks change neither.
pub proof fn law_select_omit_partition<K, V>(m: Map<K, V>, keys: Seq<K>)
    ensures
        m.restrict(keys.to_set()).dom() == m.dom().intersect(keys.to_set()),
        m.remove_keys(keys.to_set()).dom() == m.dom().difference(keys.to_set()),
        m.restrict(keys.to_set()).dom().disjoint(m.remove_keys(keys.to_set()).dom()),
        m.restrict(keys.to_set()).union_prefer_right(m.remove_keys(keys.to_set())) == m,
{
    let ks = keys.to_set();
    assert(m.restrict(ks).dom() =~= m.dom().intersect(ks));
    assert(m.remove_keys(ks).dom() =~= m.dom().difference(ks));
    assert(m.restrict(ks).union_prefer_right(m.remove_keys(ks)) =~= m);
}

} // verus!
