//! The book's concurrent collections: one ordered map of price levels per
//! side and the order-id location index. Each operation the book uses is a
//! thin call into the collection's crate, stated over the map it holds.
use vstd::prelude::*;
use crossbeam_skiplist::SkipMap;
use dashmap::DashMap;
use crate::level::PriceLevel;
use crate::types::Side;

verus! {

#[verifier::external_type_specification]
#[verifier::external_body]
#[verifier::reject_recursive_types(K)]
#[verifier::reject_recursive_types(V)]
pub struct ExSkipMap<K, V>(SkipMap<K, V>);

#[verifier::external_type_specification]
#[verifier::external_body]
#[verifier::reject_recursive_types(K)]
#[verifier::reject_recursive_types(V)]
#[verifier::reject_recursive_types(S)]
pub struct ExDashMap<K, V, S>(DashMap<K, V, S>);

/// The price levels held by an ordered map, by price.
pub uninterp spec fn levels_of(m: SkipMap<u64, PriceLevel>) -> Map<u64, PriceLevel>;

/// The locations held by the order-id index, by order id.
pub uninterp spec fn locations_of(m: DashMap<u128, (u64, Side)>) -> Map<u128, (u64, Side)>;

/// The map with no price level.
pub open spec fn no_levels() -> Map<u64, PriceLevel> {
    Map::empty()
}

/// The index with no location.
pub open spec fn no_locations() -> Map<u128, (u64, Side)> {
    Map::empty()
}

/// `k` is the smallest key of `m`.
pub open spec fn is_min_key(m: Map<u64, PriceLevel>, k: u64) -> bool {
    m.dom().contains(k) && forall|j: u64| #[trigger] m.dom().contains(j) ==> k <= j
}

/// `k` is the largest key of `m`.
pub open spec fn is_max_key(m: Map<u64, PriceLevel>, k: u64) -> bool {
    m.dom().contains(k) && forall|j: u64| #[trigger] m.dom().contains(j) ==> j <= k
}

/// Relies on `SkipMap::new`: a new map is empty.
#[verifier::external_body]
pub(crate) fn level_map_new() -> (r: SkipMap<u64, PriceLevel>)
    ensures
        levels_of(r) == no_levels(),
{
    SkipMap::new()
}

/// Relies on `SkipMap::get` and `Entry::value`: a copy (the derived
/// `Clone`, field by field) of the level stored at `price`.
#[verifier::external_body]
pub(crate) fn level_map_get(m: &SkipMap<u64, PriceLevel>, price: u64) -> (r: Option<PriceLevel>)
    ensures
        levels_of(*m).dom().contains(price) ==> r == Some(levels_of(*m)[price]),
        !levels_of(*m).dom().contains(price) ==> r is None,
{
    m.get(&price).map(|e| e.value().clone())
}

/// Relies on `SkipMap::insert`: an existing entry at `price` is removed
/// before the new one goes in.
#[verifier::external_body]
pub(crate) fn level_map_insert(m: &mut SkipMap<u64, PriceLevel>, price: u64, level: PriceLevel)
    ensures
        levels_of(*final(m)) == levels_of(*old(m)).insert(price, level),
{
    m.insert(price, level);
}

/// Relies on `SkipMap::remove`: the entry at `price`, if any, is gone.
#[verifier::external_body]
pub(crate) fn level_map_remove(m: &mut SkipMap<u64, PriceLevel>, price: u64)
    ensures
        levels_of(*final(m)) == levels_of(*old(m)).remove(price),
{
    m.remove(&price);
}

/// Relies on `SkipMap::front`: the entry with the lowest key.
#[verifier::external_body]
pub(crate) fn level_map_first_key(m: &SkipMap<u64, PriceLevel>) -> (r: Option<u64>)
    ensures
        r is None <==> levels_of(*m).dom().is_empty(),
        r is Some ==> is_min_key(levels_of(*m), r->0),
{
    m.front().map(|e| *e.key())
}

/// Relies on `SkipMap::back`: the entry with the highest key.
#[verifier::external_body]
pub(crate) fn level_map_last_key(m: &SkipMap<u64, PriceLevel>) -> (r: Option<u64>)
    ensures
        r is None <==> levels_of(*m).dom().is_empty(),
        r is Some ==> is_max_key(levels_of(*m), r->0),
{
    m.back().map(|e| *e.key())
}

/// The keys of `m` in strictly ascending order: the one sequence that is
/// sorted and holds exactly the keys.
pub open spec fn ascending_keys(m: Map<u64, PriceLevel>) -> Seq<u64> {
    choose|s: Seq<u64>| #[trigger] lists_keys_ascending(m, s)
}

/// `s` is sorted strictly ascending and holds exactly the keys of `m`.
pub open spec fn lists_keys_ascending(m: Map<u64, PriceLevel>, s: Seq<u64>) -> bool {
    &&& forall|i: int, j: int| 0 <= i < j < s.len() ==> #[trigger] s[i] < #[trigger] s[j]
    &&& forall|k: u64| #[trigger] m.dom().contains(k) <==> s.contains(k)
}

/// Relies on `SkipMap::iter`, which walks the keys in ascending order.
#[verifier::external_body]
pub(crate) fn level_map_keys(m: &SkipMap<u64, PriceLevel>) -> (r: Vec<u64>)
    ensures
        r@ == ascending_keys(levels_of(*m)),
        forall|i: int, j: int| 0 <= i < j < r@.len() ==> r@[i] < r@[j],
        forall|k: u64| levels_of(*m).dom().contains(k) <==> r@.contains(k),
{
    m.iter().map(|e| *e.key()).collect()
}

/// Relies on `DashMap::new`: a new index is empty.
#[verifier::external_body]
pub(crate) fn location_index_new() -> (r: DashMap<u128, (u64, Side)>)
    ensures
        locations_of(r) == no_locations(),
{
    DashMap::new()
}

/// Relies on `DashMap::get`: the location stored for `id`.
#[verifier::external_body]
pub(crate) fn location_get(m: &DashMap<u128, (u64, Side)>, id: u128) -> (r: Option<(u64, Side)>)
    ensures
        locations_of(*m).dom().contains(id) ==> r == Some(locations_of(*m)[id]),
        !locations_of(*m).dom().contains(id) ==> r is None,
{
    m.get(&id).map(|e| *e.value())
}

/// Relies on `DashMap::insert`: the entry for `id` is replaced.
#[verifier::external_body]
pub(crate) fn location_insert(m: &mut DashMap<u128, (u64, Side)>, id: u128, loc: (u64, Side))
    ensures
        locations_of(*final(m)) == locations_of(*old(m)).insert(id, loc),
{
    m.insert(id, loc);
}

/// Relies on `DashMap::remove`: the entry for `id`, if any, is gone.
#[verifier::external_body]
pub(crate) fn location_remove(m: &mut DashMap<u128, (u64, Side)>, id: u128)
    ensures
        locations_of(*final(m)) == locations_of(*old(m)).remove(id),
{
    m.remove(&id);
}

} // verus!
