use vstd::prelude::*;
use crate::path::{Path, opt_path_view};
use dashmap::DashMap;

verus! {

/// Declares dashmap's concurrent map type so that it can appear in
/// signatures. Values of it are opaque to the verifier; every read and write
/// of a cache goes through the wrappers below, whose contracts speak of
/// `cache_view`.
#[verifier::external_type_specification]
#[verifier::external_body]
#[verifier::reject_recursive_types(K)]
#[verifier::reject_recursive_types(V)]
#[verifier::reject_recursive_types(S)]
pub struct ExDashMap<K, V, S>(DashMap<K, V, S>);

/// The cache backing store: a concurrent map from a directed (start id,
/// goal id) pair to the stored optional route.
pub type QueryCache = DashMap<(usize, usize), Option<Path>>;

/// The entries a query cache currently holds, as a mathematical map from a
/// directed (start id, goal id) pair to the stored optional route.
pub uninterp spec fn cache_view(m: QueryCache) -> Map<(usize, usize), Option<Seq<(usize, u64)>>>;

/// The view of a cache that holds no entries.
pub open spec fn empty_cache_view() -> Map<(usize, usize), Option<Seq<(usize, u64)>>> {
    Map::empty()
}

/// Relies on DashMap::new: a freshly created map holds no entries.
#[verifier::external_body]
pub fn cache_new() -> (r: QueryCache)
    ensures
        cache_view(r) == empty_cache_view(),
{
    DashMap::new()
}

/// Relies on DashMap::get: hands back a copy of the entry stored under
/// `key`, or nothing exactly when the key is absent.
#[verifier::external_body]
pub fn cache_get(m: &QueryCache, key: (usize, usize)) -> (r: Option<Option<Path>>)
    ensures
        r.is_some() <==> cache_view(*m).contains_key(key),
        r.is_some() ==> opt_path_view(r.unwrap()) == cache_view(*m)[key],
{
    m.get(&key).map(|entry| entry.value().clone())
}

/// Relies on DashMap::insert: stores `value` under `key`, replacing any
/// previous entry and leaving the rest of the map as it was.
#[verifier::external_body]
pub fn cache_insert(m: &mut QueryCache, key: (usize, usize), value: Option<Path>)
    ensures
        cache_view(*final(m)) == cache_view(*old(m)).insert(key, opt_path_view(value)),
{
    m.insert(key, value);
}

} // verus!
