//! Pure transformations over mappings, sets and sequences.
//!
//! Every operation borrows its inputs and returns a freshly built container.
//! Contracts are stated over the views of the standard containers:
//! `HashMap<K, V>` as `Map<K, V>`, `HashSet<T>` as `Set<T>` and slices or
//! vectors as `Seq<T>`.
use vstd::prelude::*;

pub mod copia;
pub mod lista;
pub mod tabula;

verus! {

/// The type's `clone` hands back a value equal to its input, so a container
/// built from clones holds the same values as the one it was built from.
pub open spec fn clone_is_exact<T: Clone>() -> bool {
    forall|a: T, b: T| #[trigger] cloned(a, b) ==> a == b
}

/// What a hash container of keys `K` needs so that its view is meaningful:
/// hashing and `==` agree with identity, and cloning is exact.
pub open spec fn lawful_key<K: Clone>() -> bool {
    &&& vstd::std_specs::hash::obeys_key_model::<K>()
    &&& clone_is_exact::<K>()
}

} // verus!
