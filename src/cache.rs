//! The equity cache: results of earlier queries, shared by concurrent
//! callers and kept for the calculator's lifetime.

use vstd::prelude::*;
use dashmap::DashMap;
use foldhash::fast::RandomState;
use crate::strategy::cache_key;
use crate::strategy::orient;

verus! {

#[verifier::external_type_specification]
#[verifier::external_body]
#[verifier::reject_recursive_types(K)]
#[verifier::reject_recursive_types(V)]
#[verifier::reject_recursive_types(S)]
pub struct ExDashMap<K, V, S>(DashMap<K, V, S>);

#[verifier::external_type_specification]
#[verifier::external_body]
pub struct ExRandomState(RandomState);

/// Relies on DashMap::default: a new, empty map.
#[verifier::external_body]
fn empty_map<V>() -> DashMap<i32, (V, V), RandomState> {
    DashMap::default()
}

/// Relies on DashMap::get: the pair stored under `key`, if any, copied out.
/// Other callers may write meanwhile, so nothing is promised of it.
#[verifier::external_body]
fn map_get<V: Copy>(map: &DashMap<i32, (V, V), RandomState>, key: i32) -> Option<(V, V)> {
    map.get(&key).map(|entry| *entry)
}

/// Relies on DashMap::insert: stores `value` under `key`, replacing what was
/// there.
#[verifier::external_body]
fn map_insert<V>(map: &DashMap<i32, (V, V), RandomState>, key: i32, value: (V, V)) {
    map.insert(key, value);
}

/// Equity pairs of earlier queries, keyed by the smaller of the two stacks
/// and held as (short stack, deep stack). Every method takes `&self`, so
/// callers on several threads share one cache; two of them may compute the
/// same entry, and the last write stays.
#[verifier::reject_recursive_types(V)]
pub struct EquityCache<V> {
    entries: DashMap<i32, (V, V), RandomState>,
}

impl<V: Copy> EquityCache<V> {
    /// An empty cache.
    pub fn new() -> (c: Self) {
        EquityCache { entries: empty_map() }
    }

    /// The cached equities of players A and B, in that order, if a query
    /// with the same smaller stack was stored.
    pub fn lookup(&self, stack_a: i32, stack_b: i32) -> (r: Option<(V, V)>) {
        match map_get(&self.entries, cache_key(stack_a, stack_b)) {
            Some(pair) => Some(orient(stack_a, stack_b, pair.0, pair.1)),
            None => None,
        }
    }

    /// Stores the equities of players A and B under the query's key, in
    /// (short stack, deep stack) form.
    pub fn store(&self, stack_a: i32, stack_b: i32, equity_a: V, equity_b: V) {
        map_insert(&self.entries, cache_key(stack_a, stack_b), orient(stack_a, stack_b, equity_a, equity_b));
    }
}

} // verus!
