use photom::ades::{ades_traj_index, build_dataset, observer_code, AdesRecord, OpticalIds};
use photom::observation::ObserverId;
use photom::TrajId;

fn ids(perm: Option<&str>, prov: Option<&str>, trk: Option<&str>, stn: &str) -> OpticalIds {
    OpticalIds {
        perm_id: perm.map(String::from),
        prov_id: prov.map(String::from),
        trk_sub: trk.map(String::from),
        stn: stn.to_string(),
    }
}

#[test]
fn designation_precedence() {
    assert_eq!(ids(Some("433"), Some("1898 DQ"), Some("t1"), "500").traj_id(), Some(TrajId::Int(433)));
    assert_eq!(
        ids(None, Some("2020 AV2"), Some("t1"), "500").traj_id(),
        Some(TrajId::Str("2020 AV2".to_string()))
    );
    assert_eq!(ids(None, None, Some("trk9"), "500").traj_id(), Some(TrajId::Str("trk9".into())));
    assert_eq!(ids(None, None, None, "500").traj_id(), None);
    assert_eq!(ids(Some("+12"), None, None, "500").traj_id(), Some(TrajId::Int(12)));
    assert_eq!(
        ids(Some("99999999999"), None, None, "500").traj_id(),
        Some(TrajId::Str("99999999999".into()))
    );
}

#[test]
fn station_code_and_context() {
    let o = ids(None, None, None, "G9");
    assert_eq!(o.mpc_code_bytes(), *b" G9");
    assert_eq!(observer_code(None, &o), *b" G9");
    assert_eq!(observer_code(Some(*b"I41"), &o), *b"I41");
}

#[test]
fn station_code_padding_and_truncation() {
    assert_eq!(ids(None, None, None, "7").mpc_code_bytes(), *b"  7");
    assert_eq!(ids(None, None, None, "").mpc_code_bytes(), *b"   ");
    assert_eq!(ids(None, None, None, "I41X").mpc_code_bytes(), *b"I41");
    assert_eq!(ids(None, None, None, "500").mpc_code_bytes(), *b"500");
}

#[test]
fn document_trajectory_index() {
    let m = ades_traj_index(&vec![
        Some(TrajId::Int(1)),
        None,
        Some(TrajId::Int(1)),
        Some(TrajId::Str("x".into())),
    ]);
    assert_eq!(m.len(), 2);
    assert_eq!(m[&TrajId::Int(1)].to_positions(), vec![0, 2]);
    assert_eq!(m[&TrajId::Str("x".into())].to_positions(), vec![3]);
}

#[test]
fn dataset_assembly_numbers_observations_and_picks_observatories() {
    let records = vec![
        AdesRecord { ids: ids(Some("433"), None, None, "G9"), context: None, measurement: 10 },
        AdesRecord { ids: ids(None, Some("2020 AV2"), None, "500"), context: Some(*b"I41"), measurement: 20 },
        AdesRecord { ids: ids(Some("433"), None, None, "W68"), context: None, measurement: 30 },
        AdesRecord { ids: ids(None, None, None, "500"), context: None, measurement: 40 },
    ];
    let data = build_dataset(records);
    assert_eq!(data.observations.len(), 4);
    for (i, o) in data.observations.iter().enumerate() {
        assert_eq!(o.id, i as u64);
        assert!(o.night_id.is_none());
        assert_eq!(o.measurement, 10 * (i as i32 + 1));
    }
    assert_eq!(data.observations[0].observer, Some(ObserverId::MpcCode(*b" G9")));
    assert_eq!(data.observations[1].observer, Some(ObserverId::MpcCode(*b"I41")));
    assert_eq!(data.observations[2].observer, Some(ObserverId::MpcCode(*b"W68")));
    assert_eq!(data.traj_index.len(), 2);
    assert_eq!(data.traj_index[&TrajId::Int(433)].to_positions(), vec![0, 2]);
    assert_eq!(data.traj_index[&TrajId::Str("2020 AV2".into())].to_positions(), vec![1]);
}
