use std::collections::HashSet;

use photom::night::{NightDataset, NightObs};
use photom::observation::{ObsDataset, ObsErrorModel, ObsId, Observation};
use photom::NightId;

/// Sky position, photometry and epoch of a test observation.
#[derive(Debug, Clone, PartialEq)]
struct Measurement {
    ra: f64,
    ra_err: f64,
    dec: f64,
    dec_err: f64,
    magnitude: f64,
    mag_err: f64,
    filter: String,
    mjd_tt: f64,
}

/// A custom site (unused by these tests).
#[derive(Debug, Clone, PartialEq)]
struct Site;

fn make_obs_dataset_empty() -> ObsDataset<Measurement, Site> {
    ObsDataset::new(vec![], vec![], ObsErrorModel::FCCT14, Some(100))
}

fn make_observation(id: u64) -> Observation<Measurement> {
    Observation {
        id,
        night_id: None,
        measurement: Measurement {
            ra: 0.5,
            ra_err: 1e-5,
            dec: 0.2,
            dec_err: 1e-5,
            magnitude: 15.0,
            mag_err: 0.1,
            filter: "G".to_string(),
            mjd_tt: 60000.5,
        },
        observer: None,
    }
}

fn make_obs_dataset(obs: Vec<Observation<Measurement>>) -> ObsDataset<Measurement, Site> {
    ObsDataset::new(obs, vec![], ObsErrorModel::FCCT14, Some(100))
}

fn make_night_obs(night: u32, obs_ids: Vec<u64>) -> NightObs {
    NightObs {
        night_id: NightId(night),
        obs_ids,
    }
}

fn make_dataset(
    obs: Vec<Observation<Measurement>>,
    nights: Vec<NightObs>,
) -> NightDataset<Measurement, Site> {
    NightDataset::new(make_obs_dataset(obs), nights, Some(100))
}

#[test]
fn night_id_equal_values_are_eq() {
    let a = NightId(60000);
    let b = NightId(60000);
    assert_eq!(a, b);
}

#[test]
fn night_id_ordering_less_than() {
    let a = NightId(59999);
    let b = NightId(60000);
    assert!(a < b);
}

#[test]
fn night_id_ordering_greater_than() {
    let a = NightId(60001);
    let b = NightId(60000);
    assert!(a > b);
}

#[test]
fn night_id_is_copy() {
    let original = NightId(60000);
    let copy = original;
    assert_eq!(original, copy);
}

#[test]
fn night_id_debug_contains_inner_value() {
    let id = NightId(60312);
    let debug_str = format!("{id:?}");
    assert!(
        debug_str.contains("60312"),
        "Debug output should contain '60312', got: {debug_str}"
    );
}

#[test]
fn night_id_can_be_inserted_into_hash_set() {
    let mut set: HashSet<NightId> = HashSet::new();
    set.insert(NightId(60000));
    set.insert(NightId(60001));
    set.insert(NightId(60000));
    assert_eq!(set.len(), 2);
}

#[test]
fn night_id_hash_set_contains() {
    let mut set: HashSet<NightId> = HashSet::new();
    set.insert(NightId(60000));
    assert!(set.contains(&NightId(60000)));
    assert!(!set.contains(&NightId(99999)));
}

#[test]
fn from_u32_produces_correct_night_id() {
    let id = NightId::from(60312u32);
    assert_eq!(id, NightId(60312));
}

#[test]
fn into_night_id_from_u32() {
    let id: NightId = 60312u32.into();
    assert_eq!(id, NightId(60312));
}

#[test]
fn night_obs_fields_are_accessible() {
    let night_obs = make_night_obs(60000, vec![1, 2, 3]);
    assert_eq!(night_obs.night_id, NightId(60000));
    assert_eq!(night_obs.obs_ids, vec![1u64, 2u64, 3u64]);
}

#[test]
fn night_obs_obs_ids_is_in_insertion_order() {
    let ids: Vec<ObsId> = vec![10, 20, 5, 99];
    let night_obs = make_night_obs(60001, ids.clone());
    assert_eq!(night_obs.obs_ids, ids);
}

#[test]
fn night_obs_is_clone() {
    let original = make_night_obs(60002, vec![42, 43]);
    let cloned = original.clone();
    assert_eq!(cloned.night_id, original.night_id);
    assert_eq!(cloned.obs_ids, original.obs_ids);
}

#[test]
fn night_obs_debug_is_non_empty() {
    let night_obs = make_night_obs(60003, vec![1]);
    let debug_str = format!("{night_obs:?}");
    assert!(!debug_str.is_empty(), "Debug output must not be empty");
}

#[test]
fn night_obs_empty_obs_ids() {
    let night_obs = make_night_obs(60004, vec![]);
    assert_eq!(night_obs.night_id, NightId(60004));
    assert!(night_obs.obs_ids.is_empty());
}

#[test]
fn new_empty_does_not_panic() {
    let _ds = NightDataset::new(make_obs_dataset_empty(), vec![], None);
}

#[test]
fn new_with_custom_lru_size_does_not_panic() {
    let _ds = NightDataset::new(make_obs_dataset_empty(), vec![], Some(5));
}

#[test]
fn new_empty_night_count_is_zero() {
    let ds = NightDataset::new(make_obs_dataset_empty(), vec![], Some(100));
    assert_eq!(ds.night_count(), 0);
}

#[test]
fn new_with_nights_has_correct_count() {
    let nights = vec![
        make_night_obs(60000, vec![1]),
        make_night_obs(60001, vec![2]),
        make_night_obs(60002, vec![3]),
    ];
    let ds = NightDataset::new(make_obs_dataset_empty(), nights, Some(100));
    assert_eq!(ds.night_count(), 3);
}

#[test]
fn iter_nights_empty_yields_nothing() {
    let ds = make_dataset(vec![], vec![]);
    assert_eq!(ds.iter_nights().iter().count(), 0);
}

#[test]
fn iter_nights_yields_in_insertion_order() {
    let nights = vec![
        make_night_obs(60000, vec![1]),
        make_night_obs(60001, vec![2]),
        make_night_obs(60002, vec![3]),
    ];
    let ds = make_dataset(vec![], nights);
    let ids: Vec<NightId> = ds.iter_nights().iter().map(|n| n.night_id).collect();
    assert_eq!(ids, vec![NightId(60000), NightId(60001), NightId(60002)]);
}

#[test]
fn iter_nights_single_item() {
    let nights = vec![make_night_obs(60000, vec![1])];
    let ds = make_dataset(vec![], nights);
    assert_eq!(ds.iter_nights().iter().count(), 1);
}

#[test]
fn get_night_returns_some_for_existing_id() {
    let nights = vec![make_night_obs(60000, vec![1])];
    let mut ds = make_dataset(vec![], nights);
    assert!(ds.get_night(&NightId(60000)).is_some());
}

#[test]
fn get_night_returns_none_for_missing_id() {
    let nights = vec![make_night_obs(60000, vec![1])];
    let mut ds = make_dataset(vec![], nights);
    assert!(ds.get_night(&NightId(99999)).is_none());
}

#[test]
fn get_night_repeated_calls_return_same_id() {
    let nights = vec![make_night_obs(60000, vec![1, 2])];
    let mut ds = make_dataset(vec![], nights);
    let first = ds.get_night(&NightId(60000)).map(|n| n.night_id);
    let second = ds.get_night(&NightId(60000)).map(|n| n.night_id);
    assert_eq!(first, second);
}

#[test]
fn get_night_correct_obs_ids_returned() {
    let nights = vec![
        make_night_obs(60000, vec![10, 20]),
        make_night_obs(60001, vec![30, 40, 50]),
    ];
    let mut ds = make_dataset(vec![], nights);
    let night = ds.get_night(&NightId(60001));
    assert!(night.is_some(), "Expected Some for NightId(60001)");
    assert_eq!(night.unwrap().obs_ids, vec![30u64, 40u64, 50u64]);
}

#[test]
fn get_night_lru_eviction_still_findable() {
    let nights = vec![
        make_night_obs(60000, vec![1]),
        make_night_obs(60001, vec![2]),
    ];
    let mut ds = NightDataset::new(make_obs_dataset_empty(), nights, Some(1));
    assert!(ds.get_night(&NightId(60000)).is_some());
    assert!(ds.get_night(&NightId(60001)).is_some());
    assert!(
        ds.get_night(&NightId(60000)).is_some(),
        "NightId(60000) should still be findable after LRU eviction"
    );
}

#[test]
fn get_night_first_of_duplicates_wins() {
    let nights = vec![
        make_night_obs(60000, vec![1]),
        make_night_obs(60000, vec![2]),
    ];
    let mut ds = make_dataset(vec![], nights);
    assert_eq!(ds.get_night(&NightId(60000)).unwrap().obs_ids, vec![1u64]);
    assert_eq!(ds.get_night(&NightId(60000)).unwrap().obs_ids, vec![1u64]);
}

#[test]
fn obs_dataset_returns_ref() {
    let obs = vec![make_observation(1), make_observation(2)];
    let ds = make_dataset(obs, vec![]);
    assert_eq!(ds.obs_dataset().iter_observations().iter().count(), 2);
}

#[test]
fn obs_dataset_mut_allows_get_observation() {
    let obs = vec![make_observation(42)];
    let mut ds = make_dataset(obs, vec![]);
    let found = ds.obs_dataset_mut().get_observation(42);
    assert!(
        found.is_some(),
        "Expected Some for obs id=42 via obs_dataset_mut()"
    );
}

#[test]
fn get_observation_delegates_to_obs_dataset() {
    let obs = vec![make_observation(7), make_observation(8)];
    let mut ds = make_dataset(obs, vec![]);
    let found = ds.get_observation(8);
    assert!(found.is_some(), "Expected Some for obs id=8");
    assert_eq!(found.unwrap().id, 8);
}

#[test]
fn get_observation_first_of_duplicate_ids() {
    let mut first = make_observation(5);
    first.measurement.magnitude = 11.0;
    let mut second = make_observation(5);
    second.measurement.magnitude = 12.0;
    let mut ds = make_obs_dataset(vec![first, second]);
    assert_eq!(ds.get_observation(5).unwrap().measurement.magnitude, 11.0);
    assert_eq!(ds.get_observation(5).unwrap().measurement.magnitude, 11.0);
    assert!(ds.get_observation(6).is_none());
}
