//! A bounded cache of paths known to need no scanning work.
//!
//! The cache is pure memoization: a hit saves a directory read, and an
//! entry may be dropped at any time, so nothing may rely on an entry being
//! present — only on what a present entry means.

use vstd::prelude::*;

use crate::path::AbsPath;

verus! {

/// Declares moka's synchronous cache so its values can be held and its
/// methods given contracts.
#[verifier::external_type_specification]
#[verifier::external_body]
#[verifier::reject_recursive_types(K)]
#[verifier::reject_recursive_types(V)]
#[verifier::reject_recursive_types(S)]
pub struct ExMokaCache<K, V, S>(moka::sync::Cache<K, V, S>);

/// The capacity of the skip cache; entries beyond it are evicted.
pub const SKIP_CACHE_CAPACITY: u64 = 512;

/// A bounded cache of paths that need no scanning work.
pub struct SkipCache {
    cache: moka::sync::Cache<AbsPath, ()>,
}

/// The set of path views currently held by the cache.
///
/// Entries enter the set only through [`SkipCache::insert`] and may leave at
/// any time through eviction.
pub uninterp spec fn skip_cache_contents(c: &SkipCache) -> Set<Seq<Seq<char>>>;

impl SkipCache {
    /// Relies on moka's `Cache::new`: a freshly created cache holds no
    /// entries.
    #[verifier::external_body]
    fn with_capacity(capacity: u64) -> (r: SkipCache)
        ensures
            skip_cache_contents(&r) == Set::<Seq<Seq<char>>>::empty(),
    {
        SkipCache { cache: moka::sync::Cache::new(capacity) }
    }

    /// Relies on moka's `Cache::get`: an entry is found only if it was
    /// inserted and has not been evicted or invalidated.
    #[verifier::external_body]
    pub(crate) fn contains(&self, path: &AbsPath) -> (r: bool)
        ensures
            r ==> skip_cache_contents(self).contains(path@),
    {
        self.cache.get(path).is_some()
    }

    /// Relies on moka's `Cache::insert`: inserting adds at most the given
    /// key; eviction may drop other entries but introduces none.
    #[verifier::external_body]
    pub(crate) fn insert(&mut self, path: AbsPath)
        ensures
            forall|p: Seq<Seq<char>>| skip_cache_contents(final(self)).contains(p)
                ==> skip_cache_contents(old(self)).contains(p) || p == path@,
    {
        self.cache.insert(path, ());
    }

    /// Relies on moka's `Cache::invalidate_all`: afterwards no previously
    /// inserted entry is found.
    #[verifier::external_body]
    pub(crate) fn invalidate_all(&mut self)
        ensures
            skip_cache_contents(final(self)) == Set::<Seq<Seq<char>>>::empty(),
    {
        self.cache.invalidate_all();
    }
}

impl Default for SkipCache {
    /// A fresh, empty cache with the default capacity.
    fn default() -> (r: SkipCache)
        ensures
            skip_cache_contents(&r) == Set::<Seq<Seq<char>>>::empty(),
    {
        SkipCache::with_capacity(SKIP_CACHE_CAPACITY)
    }
}

} // verus!
