//! Tables from channel names to lists of numbers: the routing table of the
//! transport sender, which lists the destinations that serve a channel, and
//! the index of the listener, which lists the places of a channel's sinks.
//! Each is a `multimap::MultiMap`, used through the few operations below.
use multimap::MultiMap;
use std::collections::hash_map::RandomState;
use vstd::prelude::*;

verus! {

/// Makes `multimap::MultiMap` known to the verifier, as a value of which
/// nothing is seen but through the functions below.
#[verifier::external_type_specification]
#[verifier::external_body]
#[verifier::reject_recursive_types(K)]
#[verifier::reject_recursive_types(V)]
#[verifier::reject_recursive_types(S)]
pub struct ExMultiMap<K, V, S>(MultiMap<K, V, S>);

/// The routing table: channel names to destination ids.
pub type Routes = MultiMap<String, u64, RandomState>;

/// What a routing table holds: for each channel name that has an entry, the
/// destination ids registered for it, in the order of their registration.
pub uninterp spec fn routes_of(m: Routes) -> Map<Seq<char>, Seq<u64>>;

/// A routing table without entries.
pub open spec fn no_routes() -> Map<Seq<char>, Seq<u64>> {
    Map::empty()
}

/// The ids registered for `k` once `v` was registered for it.
pub open spec fn with_route(routes: Map<Seq<char>, Seq<u64>>, k: Seq<char>, v: u64) -> Seq<u64> {
    if routes.dom().contains(k) {
        routes[k].push(v)
    } else {
        seq![v]
    }
}

/// Calls `MultiMap::new`. Trusted: the new table has no entry.
#[verifier::external_body]
pub(crate) fn routes_new() -> (r: Routes)
    ensures
        routes_of(r) == no_routes(),
{
    MultiMap::new()
}

/// Calls `MultiMap::insert`. Trusted: the value is pushed onto the vector of
/// the key if the key has one, else the key gets a vector that holds just the
/// value; no other key is touched.
#[verifier::external_body]
pub(crate) fn routes_insert(m: &mut Routes, k: String, v: u64)
    ensures
        routes_of(*final(m)) == routes_of(*old(m)).insert(k@, with_route(routes_of(*old(m)), k@, v)),
{
    m.insert(k, v)
}

/// Calls `MultiMap::get_vec` and copies the vector it finds. Trusted: the
/// result is the vector of the key, or `None` if the key has no entry.
#[verifier::external_body]
pub(crate) fn routes_get(m: &Routes, k: &str) -> (r: Option<Vec<u64>>)
    ensures
        match r {
            Some(v) => routes_of(*m).dom().contains(k@) && v@ == routes_of(*m)[k@],
            None => !routes_of(*m).dom().contains(k@),
        },
{
    m.get_vec(k).cloned()
}

/// Calls `MultiMap::remove`. Trusted: the key and its whole vector leave the
/// table; no other key is touched.
#[verifier::external_body]
pub(crate) fn routes_remove(m: &mut Routes, k: &str)
    ensures
        routes_of(*final(m)) == routes_of(*old(m)).remove(k@),
{
    m.remove(k);
}

} // verus!
