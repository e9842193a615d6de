//! Operations on sets.
use std::collections::HashSet;
use std::hash::Hash;
use vstd::prelude::*;
use vstd::std_specs::iter::IteratorSpec;

use crate::lawful_key;

verus! {

broadcast use vstd::std_specs::hash::group_hash_axioms;

/// `q` walks over the members of `s`: each of its elements is a member, and
/// each member turns up in it.
spec fn walks_members<T>(s: Set<T>, q: Seq<&T>) -> bool {
    &&& forall|j: int| 0 <= j < q.len() ==> #[trigger] s.contains(*q[j])
    &&& forall|x: T| s.contains(x) ==> exists|j: int| 0 <= j < q.len() && *q[j] == x
}

/// The members among the first `n` elements of `q`.
spec fn members_before<T>(q: Seq<&T>, n: int) -> Set<T> {
    Set::new(|x: T| exists|j: int| 0 <= j < n && *q[j] == x)
}

/// A listing whose dereferenced elements make up `s` walks over `s`.
proof fn lemma_listing_members<T>(s: Set<T>, q: Seq<&T>)
    requires
        q.unref().to_set() == s,
    ensures
        walks_members(s, q),
{
    assert forall|j: int| 0 <= j < q.len() implies #[trigger] s.contains(*q[j]) by {
        assert(q.unref()[j] == *q[j]);
    }
    assert forall|x: T| s.contains(x) implies exists|j: int| 0 <= j < q.len() && *q[j] == x by {
        let j = choose|j: int| 0 <= j < q.unref().len() && q.unref()[j] == x;
        assert(*q[j] == x);
    }
}

/// Every element of `a` or of `b`, once.
pub fn copia_unio<T>(a: &HashSet<T>, b: &HashSet<T>) -> (r: HashSet<T>)
    where
        T: Clone + Eq + Hash,
    requires
        lawful_key::<T>(),
    ensures
        r@ == a@.union(b@),
{
    let mut result: HashSet<T> = HashSet::new();
    proof {
        lemma_listing_members(a@, a.iter().remaining());
    }
    for x in it: a.iter()
        invariant
            lawful_key::<T>(),
            it.seq() == a.iter().remaining(),
            it.index() <= it.seq().len(),
            walks_members(a@, it.seq()),
            result@ == members_before(it.seq(), it.index()),
    {
        let c = x.clone();
        assert(cloned(*x, c));
        result.insert(c);
        assert(result@ =~= members_before(it.seq(), it.index() + 1));
    }
    assert(result@ =~= a@);
    proof {
        lemma_listing_members(b@, b.iter().remaining());
    }
    for x in it: b.iter()
        invariant
            lawful_key::<T>(),
            it.seq() == b.iter().remaining(),
            it.index() <= it.seq().len(),
            walks_members(b@, it.seq()),
            result@ == a@.union(members_before(it.seq(), it.index())),
    {
        let c = x.clone();
        assert(cloned(*x, c));
        result.insert(c);
        assert(result@ =~= a@.union(members_before(it.seq(), it.index() + 1)));
    }
    assert(result@ =~= a@.union(b@));
    result
}

/// The elements of `a` that `b` also holds.
pub fn copia_intersectio<T>(a: &HashSet<T>, b: &HashSet<T>) -> (r: HashSet<T>)
    where
        T: Clone + Eq + Hash,
    requires
        lawful_key::<T>(),
    ensures
        r@ == a@.intersect(b@),
{
    let mut result: HashSet<T> = HashSet::new();
    proof {
        lemma_listing_members(a@, a.iter().remaining());
    }
    for x in it: a.iter()
        invariant
            lawful_key::<T>(),
            it.seq() == a.iter().remaining(),
            it.index() <= it.seq().len(),
            walks_members(a@, it.seq()),
            result@ == b@.intersect(members_before(it.seq(), it.index())),
    {
        if b.contains(x) {
            let c = x.clone();
            assert(cloned(*x, c));
            result.insert(c);
        }
        assert(result@ =~= b@.intersect(members_before(it.seq(), it.index() + 1)));
    }
    assert(result@ =~= a@.intersect(b@));
    result
}

/// The elements of `a` that `b` lacks.
pub fn copia_differentia<T>(a: &HashSet<T>, b: &HashSet<T>) -> (r: HashSet<T>)
    where
        T: Clone + Eq + Hash,
    requires
        lawful_key::<T>(),
    ensures
        r@ == a@.difference(b@),
{
    let mut result: HashSet<T> = HashSet::new();
    proof {
        lemma_listing_members(a@, a.iter().remaining());
    }
    for x in it: a.iter()
        invariant
            lawful_key::<T>(),
            it.seq() == a.iter().remaining(),
            it.index() <= it.seq().len(),
            walks_members(a@, it.seq()),
            result@ == members_before(it.seq(), it.index()).difference(b@),
    {
        if !b.contains(x) {
            let c = x.clone();
            assert(cloned(*x, c));
            result.insert(c);
        }
        assert(result@ =~= members_before(it.seq(), it.index() + 1).difference(b@));
    }
    assert(result@ =~= a@.difference(b@));
    result
}

/// The elements that exactly one of `a` and `b` holds.
pub open spec fn symmetric_difference<T>(a: Set<T>, b: Set<T>) -> Set<T> {
    Set::new(|x: T| a.contains(x) != b.contains(x))
}

/// The elements that exactly one of `a` and `b` holds.
pub fn copia_symmetrica<T>(a: &HashSet<T>, b: &HashSet<T>) -> (r: HashSet<T>)
    where
        T: Clone + Eq + Hash,
    requires
        lawful_key::<T>(),
    ensures
        r@ == symmetric_difference(a@, b@),
{
    let mut result: HashSet<T> = HashSet::new();
    proof {
        lemma_listing_members(a@, a.iter().remaining());
    }
    for x in it: a.iter()
        invariant
            lawful_key::<T>(),
            it.seq() == a.iter().remaining(),
            it.index() <= it.seq().len(),
            walks_members(a@, it.seq()),
            result@ == members_before(it.seq(), it.index()).difference(b@),
    {
        if !b.contains(x) {
            let c = x.clone();
            assert(cloned(*x, c));
            result.insert(c);
        }
        assert(result@ =~= members_before(it.seq(), it.index() + 1).difference(b@));
    }
    assert(result@ =~= a@.difference(b@));
    proof {
        lemma_listing_members(b@, b.iter().remaining());
    }
    for x in it: b.iter()
        invariant
            lawful_key::<T>(),
            it.seq() == b.iter().remaining(),
            it.index() <= it.seq().len(),
            walks_members(b@, it.seq()),
            result@ == a@.difference(b@).union(
                members_before(it.seq(), it.index()).difference(a@),
            ),
    {
        if !a.contains(x) {
            let c = x.clone();
            assert(cloned(*x, c));
            result.insert(c);
        }
        assert(result@ =~= a@.difference(b@).union(
            members_before(it.seq(), it.index() + 1).difference(a@),
        ));
    }
    assert(result@ =~= symmetric_difference(a@, b@));
    result
}

/// Lists the elements of `set`, each once. Their order is the set's own
/// iteration order, which is left open.
pub fn copia_in_lista<T>(set: &HashSet<T>) -> (r: Vec<T>)
    where
        T: Clone,
    requires
        lawful_key::<T>(),
    ensures
        r@.to_set() == set@,
        r@.no_duplicates(),
        r@.len() == set@.len(),
{
    let mut result: Vec<T> = Vec::new();
    for x in it: set.iter()
        invariant
            lawful_key::<T>(),
            it.seq() == set.iter().remaining(),
            it.index() <= it.seq().len(),
            result@ == it.seq().unref().take(it.index()),
    {
        let c = x.clone();
        assert(cloned(*x, c));
        result.push(c);
        assert(result@ =~= it.seq().unref().take(it.index() + 1));
    }
    assert(result@ =~= set.iter().remaining().unref());
    result
}

/// Union and intersection do not depend on the order of their arguments;
/// the two differences split the symmetric difference; and a union is the
/// intersection together with both differences.
pub proof fn law_set_algebra<T>(a: Set<T>, b: Set<T>)
    ensures
        a.union(b) == b.union(a),
        a.intersect(b) == b.intersect(a),
        a.difference(b).disjoint(b.difference(a)),
        a.difference(b).union(b.difference(a)) == symmetric_difference(a, b),
        symmetric_difference(a, b) == symmetric_difference(b, a),
        a.union(b) == a.intersect(b).union(a.difference(b)).union(b.difference(a)),
{
    assert(a.union(b) =~= b.union(a));
    assert(a.intersect(b) =~= b.intersect(a));
    assert(a.difference(b).union(b.difference(a)) =~= symmetric_difference(a, b));
    assert(symmetric_difference(a, b) =~= symmetric_difference(b, a));
    assert(a.union(b) =~= a.intersect(b).union(a.difference(b)).union(b.difference(a)));
}

} // verus!
