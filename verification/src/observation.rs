//! Observations and the dataset that holds them.
//!
//! An [`Observation`] carries the identifiers the library works with (its id,
//! night and observer) and a measurement payload `M` (sky position,
//! photometry, epoch) that the library stores and hands back unchanged.
//! [`ObsDataset`] keeps the observations in insertion order, the custom
//! observer sites `S` they refer to, and an LRU cache that remembers where an
//! observation id was last found.
use lru::LruCache;
use vstd::prelude::*;

use crate::ingest::PolarsError;
use crate::NightId;
use crate::cache::{position_cache_capacity, position_cache_contains, position_cache_entries, position_cache_get, position_cache_new, position_cache_put};

verus! {

/// Unique numeric identifier of an observation within its dataset.
pub type ObsId = u64;

/// Three-byte ASCII Minor Planet Center observatory code (e.g. `b"I41"`).
pub type MpcCode = [u8; 3];

/// Reference to the observer of an observation.
#[derive(Copy, Clone, Debug, PartialEq, Eq, PartialOrd, Ord, Hash)]
pub enum ObserverId {
    /// Index into the dataset's list of custom geodetic observers.
    IntId(usize),
    /// Three-byte ASCII MPC observatory code.
    MpcCode(MpcCode),
}

/// Astrometric error model used to assign accuracies to MPC-coded sites.
#[derive(Copy, Clone, Debug, PartialEq, Eq, Hash, Structural)]
pub enum ObsErrorModel {
    FCCT14,
    CBM10,
    VFCC17,
}

/// Errors of building or using a dataset.
#[derive(Debug)]
pub enum ObsDatasetError {
    /// The request to the Minor Planet Center failed, by its message.
    MPCError(String),
    /// The astrometric error-model file could not be parsed, by its message.
    ErrorModelError(String),
    /// Loading observations from a data frame failed.
    PolarIoError(PolarsError),
}

/// A single measurement with its identifiers.
pub struct Observation<M> {
    /// Unique identifier within the dataset.
    pub id: ObsId,
    /// Night during which the observation was recorded, if known.
    pub night_id: Option<NightId>,
    /// Sky position, photometry and epoch of the measurement.
    pub measurement: M,
    /// The observatory that recorded it, or `None` when unknown.
    pub observer: Option<ObserverId>,
}

/// `i` is the first position of `obs` holding an observation with id `id`.
pub open spec fn is_first_obs<M>(obs: Seq<Observation<M>>, id: ObsId, i: int) -> bool {
    &&& 0 <= i < obs.len()
    &&& obs[i].id == id
    &&& forall|j: int| 0 <= j < i ==> obs[j].id != id
}

/// Some observation of `obs` has id `id`.
pub open spec fn has_obs<M>(obs: Seq<Observation<M>>, id: ObsId) -> bool {
    exists|i: int| 0 <= i < obs.len() && obs[i].id == id
}

/// A look-up by id has one answer: two first positions of the same id
/// coincide, so repeated look-ups return the same observation whatever the
/// cache holds.
pub proof fn lemma_first_obs_unique<M>(obs: Seq<Observation<M>>, id: ObsId, i: int, j: int)
    requires
        is_first_obs(obs, id, i),
        is_first_obs(obs, id, j),
    ensures
        i == j,
{
    if i < j {
        assert(obs[i].id != id);
    }
    if j < i {
        assert(obs[j].id != id);
    }
}

/// Where a dataset finds the observer of an observation.
pub enum ObserverRef<'a, S> {
    /// A custom geodetic site stored in the dataset.
    Custom(&'a S),
    /// An MPC-coded site, resolved against the MPC observatory table.
    Mpc(MpcCode),
}

/// A collection of observations with their custom observer sites.
pub struct ObsDataset<M, S> {
    observations: Vec<Observation<M>>,
    custom_observers: Vec<S>,
    mpc_error_model: Option<ObsErrorModel>,
    lru_cache_obs: LruCache<u64, usize>,
}

impl<M, S> ObsDataset<M, S> {
    /// The observations, in insertion order.
    pub closed spec fn observations(&self) -> Seq<Observation<M>> {
        self.observations@
    }

    /// The custom observer sites.
    pub closed spec fn custom_observers(&self) -> Seq<S> {
        self.custom_observers@
    }

    /// The astrometric error model of the dataset, if one is attached.
    pub closed spec fn error_model(&self) -> Option<ObsErrorModel> {
        self.mpc_error_model
    }

    /// The capacity of the observation cache.
    pub closed spec fn cache_capacity(&self) -> nat {
        position_cache_capacity(self.lru_cache_obs)
    }

    /// Every cached position is the first position of its id.
    pub closed spec fn wf(&self) -> bool {
        forall|k: u64|
            #![trigger position_cache_entries(self.lru_cache_obs).contains_key(k)]
            position_cache_entries(self.lru_cache_obs).contains_key(k) ==> is_first_obs(
                self.observations@,
                k,
                position_cache_entries(self.lru_cache_obs)[k] as int,
            )
    }

    /// Create a dataset from its parts.  The cache capacity is
    /// `lru_cache_size`, 1 000 when `None`; a capacity of zero is refused.
    pub fn new(
        observations: Vec<Observation<M>>,
        custom_observers: Vec<S>,
        error_model: ObsErrorModel,
        lru_cache_size: Option<usize>,
    ) -> (ds: Self)
        requires
            lru_cache_size != Some(0usize),
        ensures
            ds.wf(),
            ds.observations() == observations@,
            ds.custom_observers() == custom_observers@,
            ds.error_model() == Some(error_model),
            ds.cache_capacity() == (match lru_cache_size {
                Some(n) => n as nat,
                None => 1000,
            }),
    {
        Self::with_optional_model(observations, custom_observers, Some(error_model), lru_cache_size)
    }

    /// Create a dataset as [`ObsDataset::new`] does, with an optional error
    /// model, as the loaders take it: `None` leaves MPC-coded observers
    /// without accuracies until a model is attached with
    /// [`ObsDataset::set_error_model`].
    pub fn with_optional_model(
        observations: Vec<Observation<M>>,
        custom_observers: Vec<S>,
        error_model: Option<ObsErrorModel>,
        lru_cache_size: Option<usize>,
    ) -> (ds: Self)
        requires
            lru_cache_size != Some(0usize),
        ensures
            ds.wf(),
            ds.observations() == observations@,
            ds.custom_observers() == custom_observers@,
            ds.error_model() == error_model,
            ds.cache_capacity() == (match lru_cache_size {
                Some(n) => n as nat,
                None => 1000,
            }),
    {
        let capacity = match lru_cache_size {
            Some(n) => n,
            None => 1000,
        };
        ObsDataset {
            observations,
            custom_observers,
            mpc_error_model: error_model,
            lru_cache_obs: position_cache_new(capacity),
        }
    }

    /// The astrometric error model of the dataset, if one is attached.
    pub fn error_model_value(&self) -> (m: Option<ObsErrorModel>)
        ensures
            m == self.error_model(),
    {
        self.mpc_error_model
    }

    /// Attach an astrometric error model; nothing else changes.
    pub fn set_error_model(&mut self, model: ObsErrorModel)
        requires
            old(self).wf(),
        ensures
            final(self).wf(),
            final(self).error_model() == Some(model),
            final(self).observations() == old(self).observations(),
            final(self).custom_observers() == old(self).custom_observers(),
            final(self).cache_capacity() == old(self).cache_capacity(),
    {
        self.mpc_error_model = Some(model);
    }

    /// All observations, in insertion order.
    pub fn iter_observations(&self) -> (s: &[Observation<M>])
        ensures
            s@ == self.observations(),
    {
        self.observations.as_slice()
    }

    /// The custom observer sites.
    pub fn iter_custom_observers(&self) -> (s: &[S])
        ensures
            s@ == self.custom_observers(),
    {
        self.custom_observers.as_slice()
    }

    /// The number of observations.
    pub fn observation_count(&self) -> (n: usize)
        ensures
            n == self.observations().len(),
    {
        self.observations.len()
    }

    /// First position holding an observation with id `id`, by linear scan.
    fn find_position(&self, id: ObsId) -> (r: Option<usize>)
        ensures
            match r {
                Some(i) => is_first_obs(self.observations@, id, i as int),
                None => !has_obs(self.observations@, id),
            },
    {
        let mut i: usize = 0;
        while i < self.observations.len()
            invariant
                i <= self.observations@.len(),
                forall|j: int| 0 <= j < i ==> self.observations@[j].id != id,
            decreases self.observations@.len() - i,
        {
            if self.observations[i].id == id {
                return Some(i);
            }
            i = i + 1;
        }
        None
    }

    /// Look up an observation by id.
    ///
    /// The cache is probed first; on a miss the observations are scanned and
    /// the position found is cached.  Either way the result is the first
    /// observation with that id, and `None` when there is none.
    pub fn get_observation(&mut self, id: ObsId) -> (r: Option<&Observation<M>>)
        requires
            old(self).wf(),
        ensures
            final(self).wf(),
            final(self).observations() == old(self).observations(),
            final(self).custom_observers() == old(self).custom_observers(),
            final(self).error_model() == old(self).error_model(),
            final(self).cache_capacity() == old(self).cache_capacity(),
            match r {
                Some(o) => exists|i: int|
                    is_first_obs(old(self).observations(), id, i) && *o == old(
                        self,
                    ).observations()[i],
                None => !has_obs(old(self).observations(), id),
            },
    {
        let pos = if position_cache_contains(&self.lru_cache_obs, id) {
            match position_cache_get(&mut self.lru_cache_obs, id) {
                Some(p) => p,
                None => return None,
            }
        } else {
            match self.find_position(id) {
                Some(p) => {
                    position_cache_put(&mut self.lru_cache_obs, id, p);
                    p
                },
                None => return None,
            }
        };
        proof {
            assert(self.observations@ == old(self).observations());
            assert(is_first_obs(old(self).observations(), id, pos as int));
            assert(self.observations@[pos as int] == old(self).observations()[pos as int]);
        }
        Some(&self.observations[pos])
    }

    /// Where to find the observer of observation `id`.
    ///
    /// `None` when there is no such observation, when it has no observer, or
    /// when its custom observer index is out of range; a custom site is
    /// returned by reference and an MPC code is returned for resolution
    /// against the MPC observatory table.
    pub fn get_observer(&mut self, id: ObsId) -> (r: Option<ObserverRef<'_, S>>)
        requires
            old(self).wf(),
        ensures
            final(self).wf(),
            final(self).observations() == old(self).observations(),
            final(self).custom_observers() == old(self).custom_observers(),
            final(self).error_model() == old(self).error_model(),
            final(self).cache_capacity() == old(self).cache_capacity(),
            !has_obs(old(self).observations(), id) ==> r is None,
            forall|i: int|
                #![trigger is_first_obs(old(self).observations(), id, i)]
                is_first_obs(old(self).observations(), id, i) ==> match old(
                    self,
                ).observations()[i].observer {
                    None => r is None,
                    Some(ObserverId::IntId(k)) => if k < old(self).custom_observers().len() {
                        r matches Some(ObserverRef::Custom(s)) && *s == old(
                            self,
                        ).custom_observers()[k as int]
                    } else {
                        r is None
                    },
                    Some(ObserverId::MpcCode(code)) => r == Some(ObserverRef::<S>::Mpc(code)),
                },
    {
        let observer_id = match self.get_observation(id) {
            Some(o) => o.observer,
            None => return None,
        };
        match observer_id {
            Some(ObserverId::IntId(idx)) => {
                if idx < self.custom_observers.len() {
                    Some(ObserverRef::Custom(&self.custom_observers[idx]))
                } else {
                    None
                }
            },
            Some(ObserverId::MpcCode(code)) => Some(ObserverRef::Mpc(code)),
            None => None,
        }
    }
}

} // verus!
