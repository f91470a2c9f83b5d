use photom::observation::{ObsDataset, ObsErrorModel, Observation, ObserverId, ObserverRef};
use photom::NightId;

#[derive(Debug, PartialEq)]
struct Site {
    name: &'static str,
}

fn obs(id: u64, observer: Option<ObserverId>) -> Observation<f64> {
    Observation {
        id,
        night_id: Some(NightId(60000)),
        measurement: id as f64 * 0.5,
        observer,
    }
}

fn dataset() -> ObsDataset<f64, Site> {
    ObsDataset::new(
        vec![
            obs(0, Some(ObserverId::IntId(0))),
            obs(1, None),
            obs(2, Some(ObserverId::MpcCode(*b"I41"))),
            obs(3, Some(ObserverId::IntId(5))),
        ],
        vec![Site { name: "Test site" }],
        ObsErrorModel::VFCC17,
        None,
    )
}

#[test]
fn round_trip_observation_count() {
    let ds = dataset();
    assert_eq!(ds.observation_count(), 4);
    assert_eq!(ds.iter_observations().len(), 4);
}

#[test]
fn round_trip_get_observation_by_id() {
    let mut ds = dataset();
    assert!(ds.get_observation(0).is_some());
    assert!(ds.get_observation(1).is_some());
    assert!(ds.get_observation(99).is_none());
    assert_eq!(ds.get_observation(2).unwrap().measurement, 1.0);
}

#[test]
fn round_trip_custom_observer() {
    let mut ds = dataset();
    match ds.get_observer(0) {
        Some(ObserverRef::Custom(s)) => assert_eq!(s.name, "Test site"),
        _ => panic!("observer must resolve to the custom site"),
    }
}

#[test]
fn observer_resolution_cases() {
    let mut ds = dataset();
    assert!(ds.get_observer(1).is_none());
    match ds.get_observer(2) {
        Some(ObserverRef::Mpc(code)) => assert_eq!(&code, b"I41"),
        _ => panic!("expected an MPC code"),
    }
    assert!(ds.get_observer(3).is_none());
    assert!(ds.get_observer(42).is_none());
}

#[test]
fn error_model_is_kept() {
    let ds = dataset();
    assert_eq!(ds.error_model_value(), Some(ObsErrorModel::VFCC17));
}

#[test]
fn error_model_can_be_left_unset_and_attached_later() {
    let mut ds: ObsDataset<f64, Site> =
        ObsDataset::with_optional_model(vec![obs(1, None)], vec![], None, None);
    assert_eq!(ds.error_model_value(), None);
    ds.set_error_model(ObsErrorModel::CBM10);
    assert_eq!(ds.error_model_value(), Some(ObsErrorModel::CBM10));
    assert_eq!(ds.iter_observations().len(), 1);
}

#[test]
fn tiny_cache_still_finds_everything() {
    let mut ds: ObsDataset<f64, Site> = ObsDataset::new(
        vec![obs(10, None), obs(11, None), obs(12, None)],
        vec![],
        ObsErrorModel::FCCT14,
        Some(1),
    );
    for _ in 0..2 {
        for id in [10, 11, 12] {
            assert_eq!(ds.get_observation(id).unwrap().id, id);
        }
    }
}
