//! A bounded, expiring record of open windows, kept in a `moka` cache.

use vstd::prelude::*;

verus! {

/// `moka::sync::Cache`, carried through unchanged.
#[verifier::external_type_specification]
#[verifier::external_body]
#[verifier::reject_recursive_types(K)]
#[verifier::reject_recursive_types(V)]
#[verifier::reject_recursive_types(S)]
pub struct ExMokaCache<K, V, S>(moka::sync::Cache<K, V, S>);

/// The capacity a window cache is built with: the number of windows, at
/// least one.
pub open spec fn window_capacity(max_windows: u32) -> u64 {
    if max_windows == 0 {
        1
    } else {
        max_windows as u64
    }
}

/// The longest time to live `moka` accepts: 1000 years of 365 days, in
/// seconds (`CacheBuilder::build` panics on a longer one).
pub const MAX_CACHE_TTL_SECS: u64 = 31_536_000_000;

/// A `moka` cache built with `CacheBuilder::max_capacity` and
/// `CacheBuilder::time_to_live` (in seconds), then `build`. Nothing is
/// stated of what the cache holds: `moka` evicts by capacity and by time on
/// its own schedule.
#[verifier::external_body]
fn build_cache(max_capacity: u64, ttl_seconds: u64) -> moka::sync::Cache<String, u64>
    requires
        ttl_seconds <= MAX_CACHE_TTL_SECS,
{
    moka::sync::Cache::builder()
        .max_capacity(max_capacity)
        .time_to_live(std::time::Duration::from_secs(ttl_seconds))
        .build()
}

/// `moka::sync::Cache::insert`; nothing is stated of the cache afterwards
/// (entries may be evicted at any time).
#[verifier::external_body]
fn cache_insert(cache: &moka::sync::Cache<String, u64>, key: String, value: u64) {
    cache.insert(key, value)
}

/// `moka::sync::Cache::invalidate`; nothing is stated of the cache
/// afterwards.
#[verifier::external_body]
fn cache_invalidate(cache: &moka::sync::Cache<String, u64>, key: &str) {
    cache.invalidate(key)
}

/// `moka::sync::Cache::entry_count`: moka's estimate of the number of
/// entries, which lags behind inserts and evictions still pending; nothing
/// is stated of it.
#[verifier::external_body]
fn cache_entry_count(cache: &moka::sync::Cache<String, u64>) -> u64 {
    cache.entry_count()
}

/// Open windows by id, with the time each was opened.
pub struct WindowCache {
    cache: moka::sync::Cache<String, u64>,
    capacity: u64,
}

impl WindowCache {
    /// The capacity the cache was built with.
    pub closed spec fn capacity_view(&self) -> u64 {
        self.capacity
    }

    /// A cache of at most `max_windows` windows (at least one) that forgets
    /// a window `ttl_seconds` after it was opened.
    pub fn new(max_windows: u32, ttl_seconds: u64) -> (r: Self)
        requires
            ttl_seconds <= MAX_CACHE_TTL_SECS,
        ensures
            r.capacity_view() == window_capacity(max_windows),
    {
        let max_capacity: u64 = if max_windows == 0 {
            1
        } else {
            max_windows as u64
        };
        WindowCache { cache: build_cache(max_capacity, ttl_seconds), capacity: max_capacity }
    }

    /// Records a window as opened at `opened_at`.
    pub fn open_window(&self, window_id: &str, opened_at: u64) {
        cache_insert(&self.cache, window_id.to_owned(), opened_at)
    }

    /// Forgets a window.
    pub fn close_window(&self, window_id: &str) {
        cache_invalidate(&self.cache, window_id)
    }

    /// The cache's estimate of how many windows it holds.
    pub fn entry_count(&self) -> u64 {
        cache_entry_count(&self.cache)
    }
}

} // verus!
