use vstd::prelude::*;
use dashmap::DashMap;

verus! {

/// The map of `dashmap`, used for the outstanding header requests; its
/// contents are read through `slots_of` alone.
#[verifier::external_type_specification]
#[verifier::external_body]
#[verifier::reject_recursive_types(K)]
#[verifier::reject_recursive_types(V)]
#[verifier::reject_recursive_types(S)]
pub struct ExDashMap<K, V, S>(DashMap<K, V, S>);

/// What an outstanding-request map holds: the first block of each request
/// slot, and the number of headers the slot asks for.
pub uninterp spec fn slots_of(m: DashMap<u64, u64>) -> Map<u64, u64>;

/// Relies on `dashmap::DashMap::new`: a new map is empty.
#[verifier::external_body]
pub(crate) fn slots_new() -> (r: DashMap<u64, u64>)
    ensures
        (slots_of(r) == Map::<u64, u64>::empty()),
{
    DashMap::new()
}

/// Relies on `dashmap::DashMap::insert`: the key maps to the value after.
#[verifier::external_body]
pub(crate) fn slots_insert(m: &mut DashMap<u64, u64>, start: u64, limit: u64)
    ensures
        slots_of(*final(m)) == slots_of(*old(m)).insert(start, limit),
{
    m.insert(start, limit);
}

/// Relies on `dashmap::DashMap::remove`: the key's entry is gone after.
#[verifier::external_body]
pub(crate) fn slots_remove(m: &mut DashMap<u64, u64>, start: u64)
    ensures
        slots_of(*final(m)) == slots_of(*old(m)).remove(start),
{
    m.remove(&start);
}

/// Relies on `dashmap::DashMap::get`: the value at the key, if any.
#[verifier::external_body]
pub(crate) fn slots_get(m: &DashMap<u64, u64>, start: u64) -> (r: Option<u64>)
    ensures
        r == (if slots_of(*m).contains_key(start) { Some(slots_of(*m)[start]) } else { None::<u64> }),
{
    m.get(&start).map(|e| *e.value())
}

/// Relies on `dashmap::DashMap::is_empty`: whether the map holds no entry.
#[verifier::external_body]
pub(crate) fn slots_is_empty(m: &DashMap<u64, u64>) -> (r: bool)
    ensures
        r == (slots_of(*m).dom() == Set::<u64>::empty()),
{
    m.is_empty()
}

/// Relies on `dashmap::DashMap::iter`: each entry once, in no given order.
#[verifier::external_body]
pub(crate) fn slots_entries(m: &DashMap<u64, u64>) -> (r: Vec<(u64, u64)>)
    ensures
        forall|i: int| 0 <= i < r@.len() ==> slots_of(*m).contains_key(#[trigger] r@[i].0)
            && slots_of(*m)[r@[i].0] == r@[i].1,
        forall|k: u64| slots_of(*m).contains_key(k) ==> exists|i: int| 0 <= i < r@.len() && r@[i].0 == k,
        forall|i: int, j: int| 0 <= i < j < r@.len() ==> r@[i].0 != r@[j].0,
{
    m.iter().map(|e| (*e.key(), *e.value())).collect()
}

} // verus!
