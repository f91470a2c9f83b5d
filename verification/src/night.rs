//! Grouping of observations by night.
//!
//! [`NightObs`] lists the observation ids of one night; [`NightDataset`]
//! owns an [`ObsDataset`] and the nights, in first-appearance order, with an
//! LRU cache over night look-ups.
use lru::LruCache;
use vstd::prelude::*;

use crate::NightId;
use crate::cache::{night_cache_capacity, night_cache_contains, night_cache_entries, night_cache_get, night_cache_new, night_cache_put};
use crate::observation::{ObsDataset, ObsId, Observation, has_obs, is_first_obs};

verus! {

/// The observation ids of one night, in source-row order.
#[derive(Debug)]
pub struct NightObs {
    /// The night.
    pub night_id: NightId,
    /// Ids of the observations of that night, in source-row order.
    pub obs_ids: Vec<ObsId>,
}

impl View for NightObs {
    type V = (u32, Seq<u64>);

    open spec fn view(&self) -> (u32, Seq<u64>) {
        (self.night_id.0, self.obs_ids@)
    }
}

impl Clone for NightObs {
    fn clone(&self) -> (r: Self)
        ensures
            r@ == self@,
    {
        NightObs { night_id: self.night_id, obs_ids: self.obs_ids.clone() }
    }
}

/// `i` is the first position of `nights` holding night `id`.
pub open spec fn is_first_night(nights: Seq<NightObs>, id: u32, i: int) -> bool {
    &&& 0 <= i < nights.len()
    &&& nights[i].night_id.0 == id
    &&& forall|j: int| 0 <= j < i ==> nights[j].night_id.0 != id
}

/// Some night of `nights` is night `id`.
pub open spec fn has_night(nights: Seq<NightObs>, id: u32) -> bool {
    exists|i: int| 0 <= i < nights.len() && nights[i].night_id.0 == id
}

/// Every entry of `entries` is the first night of its number in `nights`.
pub open spec fn cache_agrees(nights: Seq<NightObs>, entries: Map<u32, (u32, Seq<u64>)>) -> bool {
    forall|k: u32|
        #![trigger entries.contains_key(k)]
        entries.contains_key(k) ==> exists|i: int|
            is_first_night(nights, k, i) && entries[k] == nights[i]@
}

/// A night look-up has one answer: two first positions of the same night
/// coincide, so repeated look-ups return the same night whatever the cache
/// holds.
pub proof fn lemma_first_night_unique(nights: Seq<NightObs>, id: u32, i: int, j: int)
    requires
        is_first_night(nights, id, i),
        is_first_night(nights, id, j),
    ensures
        i == j,
{
    if i < j {
        assert(nights[i].night_id.0 != id);
    }
    if j < i {
        assert(nights[j].night_id.0 != id);
    }
}

/// Observations grouped by night.
pub struct NightDataset<M, S> {
    /// All observations of the nights.
    pub obs_dataset: ObsDataset<M, S>,
    /// The nights, in first-appearance order.
    pub nights: Vec<NightObs>,
    /// Cache of night look-ups.
    pub lru_cache_night: LruCache<NightId, NightObs>,
}

impl<M, S> NightDataset<M, S> {
    /// Every cached night is the first night of its number in `nights`, and
    /// the embedded dataset is well formed.
    pub open spec fn wf(&self) -> bool {
        &&& self.obs_dataset.wf()
        &&& cache_agrees(self.nights@, night_cache_entries(self.lru_cache_night))
    }

    /// Build a dataset from its parts; the night cache holds up to
    /// `lru_cache_size` nights (1 000 when `None`; zero is refused).
    pub fn new(obs_dataset: ObsDataset<M, S>, nights: Vec<NightObs>, lru_cache_size: Option<usize>) -> (ds:
        Self)
        requires
            obs_dataset.wf(),
            lru_cache_size != Some(0usize),
        ensures
            ds.wf(),
            ds.obs_dataset == obs_dataset,
            ds.nights@ == nights@,
            night_cache_capacity(ds.lru_cache_night) == (match lru_cache_size {
                Some(n) => n as nat,
                None => 1000,
            }),
    {
        let capacity = match lru_cache_size {
            Some(n) => n,
            None => 1000,
        };
        NightDataset { obs_dataset, nights, lru_cache_night: night_cache_new(capacity) }
    }

    /// The embedded observation dataset.
    pub fn obs_dataset(&self) -> (d: &ObsDataset<M, S>)
        ensures
            *d == self.obs_dataset,
    {
        &self.obs_dataset
    }

    /// The embedded observation dataset, for look-ups that update its cache.
    pub fn obs_dataset_mut(&mut self) -> (d: &mut ObsDataset<M, S>)
        ensures
            *d == old(self).obs_dataset,
            final(self).obs_dataset == *final(d),
            final(self).nights == old(self).nights,
            final(self).lru_cache_night == old(self).lru_cache_night,
    {
        &mut self.obs_dataset
    }

    /// Look up an observation by id in the embedded dataset.
    pub fn get_observation(&mut self, id: ObsId) -> (r: Option<&Observation<M>>)
        requires
            old(self).wf(),
        ensures
            final(self).wf(),
            final(self).nights == old(self).nights,
            final(self).obs_dataset.observations() == old(self).obs_dataset.observations(),
            match r {
                Some(o) => exists|i: int|
                    is_first_obs(old(self).obs_dataset.observations(), id, i) && *o == old(
                        self,
                    ).obs_dataset.observations()[i],
                None => !has_obs(old(self).obs_dataset.observations(), id),
            },
    {
        self.obs_dataset.get_observation(id)
    }

    /// First position of night `id`, by linear scan.
    fn find_night(&self, id: &NightId) -> (r: Option<usize>)
        ensures
            match r {
                Some(i) => is_first_night(self.nights@, id.0, i as int),
                None => !has_night(self.nights@, id.0),
            },
    {
        let mut i: usize = 0;
        while i < self.nights.len()
            invariant
                i <= self.nights@.len(),
                forall|j: int| 0 <= j < i ==> self.nights@[j].night_id.0 != id.0,
            decreases self.nights@.len() - i,
        {
            if self.nights[i].night_id.0 == id.0 {
                return Some(i);
            }
            i = i + 1;
        }
        None
    }

    /// Look up a night.
    ///
    /// The cache is probed first; on a miss the nights are scanned and the
    /// night found is cached.  Either way the result is the first night with
    /// that number, and `None` when there is none.
    pub fn get_night(&mut self, id: &NightId) -> (r: Option<&NightObs>)
        requires
            old(self).wf(),
        ensures
            final(self).wf(),
            final(self).nights == old(self).nights,
            final(self).obs_dataset == old(self).obs_dataset,
            night_cache_capacity(final(self).lru_cache_night) == night_cache_capacity(
                old(self).lru_cache_night,
            ),
            match r {
                Some(n) => exists|i: int|
                    is_first_night(old(self).nights@, id.0, i) && n@ == old(self).nights@[i]@,
                None => !has_night(old(self).nights@, id.0),
            },
    {
        if !night_cache_contains(&self.lru_cache_night, id) {
            match self.find_night(id) {
                Some(i) => {
                    let night = self.nights[i].clone();
                    night_cache_put(&mut self.lru_cache_night, *id, night);
                },
                None => return None,
            }
        }
        night_cache_get(&mut self.lru_cache_night, id)
    }

    /// All nights, in first-appearance order.
    pub fn iter_nights(&self) -> (s: &[NightObs])
        ensures
            s@ == self.nights@,
    {
        self.nights.as_slice()
    }

    /// The number of nights.
    pub fn night_count(&self) -> (n: usize)
        ensures
            n == self.nights@.len(),
    {
        self.nights.len()
    }
}

} // verus!
