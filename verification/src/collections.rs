//! Hash collections of the `ahash` crate, with what the library relies on.

use vstd::prelude::*;

use ahash::{AHashMap, AHashSet};

verus! {

/// The hasher state behind the collections below.
#[verifier::external_type_specification]
#[verifier::external_body]
pub struct ExRandomState(ahash::RandomState);

/// `ahash::AHashMap`: a `std` hash map with another hasher.
#[verifier::external_type_specification]
#[verifier::external_body]
#[verifier::reject_recursive_types(K)]
#[verifier::reject_recursive_types(V)]
#[verifier::reject_recursive_types(S)]
pub struct ExAHashMap<K, V, S>(ahash::AHashMap<K, V, S>);

/// `ahash::AHashSet`: a `std` hash set with another hasher.
#[verifier::external_type_specification]
#[verifier::external_body]
#[verifier::reject_recursive_types(T)]
#[verifier::reject_recursive_types(S)]
pub struct ExAHashSet<T, S>(ahash::AHashSet<T, S>);

/// The entries of a map.
pub uninterp spec fn slot_map(m: AHashMap<u64, u32>) -> Map<u64, u32>;

/// The members of a set.
pub uninterp spec fn cell_set(s: AHashSet<u64>) -> Set<u64>;

/// The largest capacity that a map is made with.
pub const MAX_CAPACITY: usize = 0x400_0000;

/// `AHashMap::with_capacity`: an empty map. A capacity beyond what the address
/// space holds panics there and is left out.
#[verifier::external_body]
pub(crate) fn slots_with_capacity(capacity: usize) -> (m: AHashMap<u64, u32>)
    requires
        capacity <= MAX_CAPACITY,
    ensures
        (slot_map(m) == Map::<u64, u32>::empty()),
{
    AHashMap::with_capacity(capacity)
}

/// `AHashMap::get`: the value of a key, if it has one.
#[verifier::external_body]
pub(crate) fn slots_get(m: &AHashMap<u64, u32>, key: u64) -> (r: Option<u32>)
    ensures
        r == (if slot_map(*m).contains_key(key) {
            Some(slot_map(*m)[key])
        } else {
            None
        }),
{
    m.get(&key).copied()
}

/// `AHashMap::insert`: the key maps to the value, all else stays.
#[verifier::external_body]
pub(crate) fn slots_insert(m: &mut AHashMap<u64, u32>, key: u64, value: u32)
    ensures
        slot_map(*final(m)) == slot_map(*old(m)).insert(key, value),
{
    m.insert(key, value);
}

/// `AHashSet::new`: an empty set.
#[verifier::external_body]
pub(crate) fn cells_new() -> (s: AHashSet<u64>)
    ensures
        (cell_set(s) == Set::<u64>::empty()),
{
    AHashSet::new()
}

/// `HashSet::insert`, which `AHashSet` dereferences to: the member is added.
#[verifier::external_body]
pub(crate) fn cells_insert(s: &mut AHashSet<u64>, cell: u64)
    ensures
        cell_set(*final(s)) == cell_set(*old(s)).insert(cell),
{
    s.insert(cell);
}

/// `HashSet::contains`, which `AHashSet` dereferences to: membership.
#[verifier::external_body]
pub(crate) fn cells_contains(s: &AHashSet<u64>, cell: u64) -> (r: bool)
    ensures
        r == cell_set(*s).contains(cell),
{
    s.contains(&cell)
}

} // verus!
