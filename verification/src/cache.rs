//! The least-recently-used caches of the datasets.
//!
//! Both caches are `lru::LruCache` values.  Verus sees each one through a
//! name for the entries it holds and a name for the capacity it was made
//! with; the wrappers below state what `lru` does to those entries.
use lru::LruCache;
use std::num::NonZeroUsize;
use vstd::prelude::*;

use crate::NightId;
use crate::night::NightObs;

verus! {

#[verifier::external_type_specification]
#[verifier::external_body]
#[verifier::reject_recursive_types(K)]
#[verifier::reject_recursive_types(V)]
#[verifier::reject_recursive_types(S)]
pub struct ExLruCache<K, V, S>(LruCache<K, V, S>);

#[verifier::external_type_specification]
#[verifier::external_body]
pub struct ExLruDefaultHasher(lru::DefaultHasher);

// ── cache of observation positions, keyed by observation id ─────────────────

/// The entries of a position cache: observation id ↦ position in the
/// observation list.
pub uninterp spec fn position_cache_entries(cache: LruCache<u64, usize>) -> Map<u64, usize>;

/// The capacity a position cache was created with.
pub uninterp spec fn position_cache_capacity(cache: LruCache<u64, usize>) -> nat;

/// `LruCache::new`: a new cache holds no entry and has the given capacity.
/// The capacity is turned into the `NonZeroUsize` that `lru` takes; the
/// `requires` rules out the zero on which that conversion would panic.
#[verifier::external_body]
pub(crate) fn position_cache_new(capacity: usize) -> (cache: LruCache<u64, usize>)
    requires
        capacity > 0,
    ensures
        position_cache_entries(cache).dom() == Set::<u64>::empty(),
        position_cache_capacity(cache) == capacity as nat,
{
    LruCache::new(NonZeroUsize::new(capacity).unwrap())
}

/// `LruCache::contains`: whether the key has an entry.  The lookup does not
/// change the entries.
#[verifier::external_body]
pub(crate) fn position_cache_contains(cache: &LruCache<u64, usize>, key: u64) -> (b: bool)
    ensures
        b == position_cache_entries(*cache).contains_key(key),
{
    cache.contains(&key)
}

/// `LruCache::get`: the value of the key's entry, if any.  `lru` moves the
/// entry to the front of its recency list, which leaves the set of entries
/// and their values as they were.
#[verifier::external_body]
pub(crate) fn position_cache_get(cache: &mut LruCache<u64, usize>, key: u64) -> (r: Option<usize>)
    ensures
        position_cache_entries(*final(cache)) == position_cache_entries(*old(cache)),
        position_cache_capacity(*final(cache)) == position_cache_capacity(*old(cache)),
        r == (if position_cache_entries(*old(cache)).contains_key(key) {
            Some(position_cache_entries(*old(cache))[key])
        } else {
            None::<usize>
        }),
{
    cache.get(&key).copied()
}

/// `LruCache::put`: afterwards the key maps to the value.  When the key was
/// absent and the cache was full, `lru` evicts its least recently used entry;
/// which one that is depends on the order of earlier calls, so only this is
/// stated: every other entry that remains is an entry of before, with its
/// value.  Which entries remain is not stated.
#[verifier::external_body]
pub(crate) fn position_cache_put(cache: &mut LruCache<u64, usize>, key: u64, value: usize)
    ensures
        position_cache_capacity(*final(cache)) == position_cache_capacity(*old(cache)),
        position_cache_entries(*final(cache)).contains_key(key),
        position_cache_entries(*final(cache))[key] == value,
        forall|k: u64|
            #![trigger position_cache_entries(*final(cache)).contains_key(k)]
            k != key && position_cache_entries(*final(cache)).contains_key(k) ==> {
                &&& position_cache_entries(*old(cache)).contains_key(k)
                &&& position_cache_entries(*final(cache))[k] == position_cache_entries(
                    *old(cache),
                )[k]
            },
{
    cache.put(key, value);
}

// ── cache of nights, keyed by night id ───────────────────────────────────────

/// The entries of a night cache: night number ↦ (night number, observation
/// ids) of the cached night.
pub uninterp spec fn night_cache_entries(cache: LruCache<NightId, NightObs>) -> Map<
    u32,
    (u32, Seq<u64>),
>;

/// The capacity a night cache was created with.
pub uninterp spec fn night_cache_capacity(cache: LruCache<NightId, NightObs>) -> nat;

/// `LruCache::new`: a new cache holds no entry and has the given capacity.
/// The capacity is turned into the `NonZeroUsize` that `lru` takes; the
/// `requires` rules out the zero on which that conversion would panic.
#[verifier::external_body]
pub(crate) fn night_cache_new(capacity: usize) -> (cache: LruCache<NightId, NightObs>)
    requires
        capacity > 0,
    ensures
        night_cache_entries(cache).dom() == Set::<u32>::empty(),
        night_cache_capacity(cache) == capacity as nat,
{
    LruCache::new(NonZeroUsize::new(capacity).unwrap())
}

/// `LruCache::contains`: whether the night has an entry.  `NightId` compares
/// by its number (derived `Eq`/`Hash`), so the entries are keyed by it.
#[verifier::external_body]
pub(crate) fn night_cache_contains(cache: &LruCache<NightId, NightObs>, key: &NightId) -> (b:
    bool)
    ensures
        b == night_cache_entries(*cache).contains_key(key.0),
{
    cache.contains(key)
}

/// `LruCache::get`: the cached night, if any.  The recency update leaves the
/// entries and their values as they were.
#[verifier::external_body]
pub(crate) fn night_cache_get<'a>(cache: &'a mut LruCache<NightId, NightObs>, key: &NightId) -> (r:
    Option<&'a NightObs>)
    ensures
        night_cache_entries(*final(cache)) == night_cache_entries(*old(cache)),
        night_cache_capacity(*final(cache)) == night_cache_capacity(*old(cache)),
        match r {
            Some(n) => night_cache_entries(*old(cache)).contains_key(key.0) && n@
                == night_cache_entries(*old(cache))[key.0],
            None => !night_cache_entries(*old(cache)).contains_key(key.0),
        },
{
    cache.get(key)
}

/// `LruCache::put`: afterwards the night maps to the value; an evicted least
/// recently used entry is simply gone (see `position_cache_put`).
#[verifier::external_body]
pub(crate) fn night_cache_put(cache: &mut LruCache<NightId, NightObs>, key: NightId, value: NightObs)
    ensures
        night_cache_capacity(*final(cache)) == night_cache_capacity(*old(cache)),
        night_cache_entries(*final(cache)).contains_key(key.0),
        night_cache_entries(*final(cache))[key.0] == value@,
        forall|k: u32|
            #![trigger night_cache_entries(*final(cache)).contains_key(k)]
            k != key.0 && night_cache_entries(*final(cache)).contains_key(k) ==> {
                &&& night_cache_entries(*old(cache)).contains_key(k)
                &&& night_cache_entries(*final(cache))[k] == night_cache_entries(*old(cache))[k]
            },
{
    cache.put(key, value);
}

} // verus!
