use photom::index::ObsMapIndex;
use photom::layout::{
    build_index_maps, check_format_version, to_obs_map_index, IndexLayout, ObsDatasetSeed,
    ObsMembership, FORMAT_VERSION,
};
use photom::{NightId, TrajId};

fn member(night: Option<u32>, trajs: Vec<TrajId>) -> ObsMembership {
    ObsMembership {
        night_id: night.map(NightId),
        traj_ids: trajs,
    }
}

#[test]
fn split_layout_keeps_positions() {
    match to_obs_map_index(vec![3, 1, 2], &IndexLayout::Split) {
        ObsMapIndex::Split(v) => assert_eq!(v, vec![3, 1, 2]),
        other => panic!("expected Split, got {other:?}"),
    }
}

#[test]
fn try_contiguous_makes_range_of_block() {
    match to_obs_map_index(vec![4, 2, 3], &IndexLayout::TryContiguous) {
        ObsMapIndex::Contiguous { start, end } => assert_eq!((start, end), (2, 5)),
        other => panic!("expected Contiguous, got {other:?}"),
    }
}

#[test]
fn try_contiguous_falls_back_to_sorted_split() {
    match to_obs_map_index(vec![2, 0], &IndexLayout::TryContiguous) {
        ObsMapIndex::Split(v) => assert_eq!(v, vec![0, 2]),
        other => panic!("expected Split, got {other:?}"),
    }
}

#[test]
fn try_contiguous_repeated_positions_with_gap_stay_split() {
    match to_obs_map_index(vec![0, 0, 2], &IndexLayout::TryContiguous) {
        ObsMapIndex::Split(v) => assert_eq!(v, vec![0, 0, 2]),
        other => panic!("expected Split, got {other:?}"),
    }
}

#[test]
fn try_contiguous_repeated_position_is_no_range() {
    match to_obs_map_index(vec![1, 0, 0], &IndexLayout::TryContiguous) {
        ObsMapIndex::Split(v) => assert_eq!(v, vec![0, 0, 1]),
        other => panic!("expected Split, got {other:?}"),
    }
}

#[test]
fn seed_try_contiguous_produces_contiguous_when_sorted() {
    let ms = vec![
        member(Some(59_000), vec![]),
        member(Some(59_000), vec![]),
        member(Some(59_001), vec![]),
        member(Some(59_001), vec![]),
    ];
    let seed = ObsDatasetSeed {
        layout: IndexLayout::TryContiguous,
    };
    let (nights, trajs) = build_index_maps(&ms, &seed.layout);
    let nights = nights.expect("night index must exist");
    assert!(trajs.is_none());
    for nid in [NightId(59_000), NightId(59_001)] {
        match nights.get(&nid).expect("night must be present") {
            ObsMapIndex::Contiguous { .. } => {}
            ObsMapIndex::Split(_) => panic!("expected Contiguous for {nid:?}"),
        }
    }
}

#[test]
fn seed_try_contiguous_falls_back_to_split_when_not_contiguous() {
    let ms = vec![
        member(Some(59_000), vec![]),
        member(Some(59_001), vec![]),
        member(Some(59_000), vec![]),
    ];
    let (nights, _) = build_index_maps(&ms, &IndexLayout::TryContiguous);
    let nights = nights.unwrap();
    match nights.get(&NightId(59_000)).unwrap() {
        ObsMapIndex::Split(v) => assert_eq!(v, &vec![0, 2]),
        ObsMapIndex::Contiguous { .. } => panic!("non-contiguous night must not be a range"),
    }
    match nights.get(&NightId(59_001)).unwrap() {
        ObsMapIndex::Contiguous { start, end } => assert_eq!((*start, *end), (1, 2)),
        other => panic!("expected Contiguous, got {other:?}"),
    }
}

#[test]
fn round_trip_no_night_index_stays_none() {
    let ms = vec![member(None, vec![]), member(None, vec![])];
    let (nights, trajs) = build_index_maps(&ms, &IndexLayout::Split);
    assert!(nights.is_none());
    assert!(trajs.is_none());
}

#[test]
fn round_trip_no_traj_index_stays_none() {
    let ms = vec![member(Some(1), vec![])];
    let (nights, trajs) = build_index_maps(&ms, &IndexLayout::Split);
    assert!(nights.is_some());
    assert!(trajs.is_none());
}

#[test]
fn round_trip_obs_in_multiple_trajectories() {
    let ms = vec![
        member(None, vec![TrajId::Int(1)]),
        member(None, vec![TrajId::Int(1), TrajId::Int(2)]),
        member(None, vec![TrajId::Int(2)]),
    ];
    let (_, trajs) = build_index_maps(&ms, &IndexLayout::Split);
    let trajs = trajs.unwrap();
    assert_eq!(trajs[&TrajId::Int(1)].to_positions(), vec![0, 1]);
    assert_eq!(trajs[&TrajId::Int(2)].to_positions(), vec![1, 2]);
}

#[test]
fn format_version_mismatch_is_rejected() {
    assert!(check_format_version(FORMAT_VERSION).is_ok());
    let msg = check_format_version(999).unwrap_err();
    assert_eq!(msg, "unsupported ObsDataset format version 999 (expected 2)");
    assert!(msg.contains("unsupported"));
}

#[test]
fn round_trip_night_index_len() {
    let mut nights: photom::index::NightIndexMap = ahash::AHashMap::new();
    nights.insert(NightId(59_000), ObsMapIndex::Split(vec![0, 1]));
    nights.insert(NightId(59_001), ObsMapIndex::Contiguous { start: 2, end: 4 });
    let ms = photom::layout::memberships_of(&Some(nights), &None, 4);
    assert_eq!(ms.len(), 4);
    assert_eq!(ms[0].night_id, Some(NightId(59_000)));
    assert_eq!(ms[3].night_id, Some(NightId(59_001)));
    let (rebuilt, trajs) = build_index_maps(&ms, &IndexLayout::Split);
    assert!(trajs.is_none());
    let rebuilt = rebuilt.unwrap();
    assert_eq!(rebuilt.len(), 2);
    assert_eq!(rebuilt[&NightId(59_000)].to_positions(), vec![0, 1]);
    assert_eq!(rebuilt[&NightId(59_001)].to_positions(), vec![2, 3]);
}

#[test]
fn round_trip_traj_index_iter_full_trajectory() {
    let mut trajs: photom::index::TrajIndexMap = ahash::AHashMap::new();
    trajs.insert(TrajId::Str("2020 AV2".to_string()), ObsMapIndex::Split(vec![0, 1]));
    trajs.insert(TrajId::Str("Ceres".to_string()), ObsMapIndex::Split(vec![1, 2]));
    let ms = photom::layout::memberships_of(&None, &Some(trajs), 3);
    assert_eq!(ms[1].traj_ids.len(), 2);
    let (nights, rebuilt) = build_index_maps(&ms, &IndexLayout::TryContiguous);
    assert!(nights.is_none());
    let rebuilt = rebuilt.unwrap();
    match &rebuilt[&TrajId::Str("Ceres".to_string())] {
        ObsMapIndex::Contiguous { start, end } => assert_eq!((*start, *end), (1, 3)),
        other => panic!("expected Contiguous, got {other:?}"),
    }
    assert_eq!(rebuilt[&TrajId::Str("2020 AV2".to_string())].to_positions(), vec![0, 1]);
}

#[test]
fn memberships_ignore_positions_past_the_end() {
    let mut trajs: photom::index::TrajIndexMap = ahash::AHashMap::new();
    trajs.insert(TrajId::Int(1), ObsMapIndex::Split(vec![0, 5]));
    let ms = photom::layout::memberships_of(&None, &Some(trajs), 2);
    assert_eq!(ms[0].traj_ids, vec![TrajId::Int(1)]);
    assert!(ms[1].traj_ids.is_empty());
}

#[test]
fn round_trip_traj_aliases() {
    let ms = vec![member(None, vec![TrajId::Str("2003 QQ47".to_string())])];
    let restored = photom::layout::restore_index(
        FORMAT_VERSION,
        &ms,
        vec![
            ("QQ47".to_string(), TrajId::Int(1)),
            ("QQ47".to_string(), TrajId::Str("2003 QQ47".to_string())),
        ],
        &IndexLayout::Split,
    )
    .unwrap();
    assert_eq!(
        restored.resolve_alias("QQ47"),
        Some(&TrajId::Str("2003 QQ47".to_string())),
        "alias must survive round-trip"
    );
    assert!(restored.resolve_alias("unknown").is_none());
    assert!(restored.night.is_none());
    assert_eq!(restored.traj.unwrap().len(), 1);
}

#[test]
fn restore_refuses_other_versions() {
    let r = photom::layout::restore_index(1, &[], vec![], &IndexLayout::Split);
    assert_eq!(
        r.err().unwrap(),
        "unsupported ObsDataset format version 1 (expected 2)"
    );
}

#[test]
fn round_trip_traj_index_len() {
    let mut trajs: photom::index::TrajIndexMap = ahash::AHashMap::new();
    trajs.insert(TrajId::Str("2020 AV2".to_string()), ObsMapIndex::Split(vec![0, 1]));
    trajs.insert(TrajId::Str("Ceres".to_string()), ObsMapIndex::Split(vec![2]));
    let ms = photom::layout::memberships_of(&None, &Some(trajs), 3);
    let (_, rebuilt) = build_index_maps(&ms, &IndexLayout::Split);
    let rebuilt = rebuilt.unwrap();
    assert_eq!(rebuilt[&TrajId::Str("2020 AV2".to_string())].to_positions().len(), 2);
    assert_eq!(rebuilt[&TrajId::Str("Ceres".to_string())].to_positions().len(), 1);
}

#[test]
fn round_trip_night_index_iter_full_night() {
    let mut nights: photom::index::NightIndexMap = ahash::AHashMap::new();
    nights.insert(NightId(59_000), ObsMapIndex::Split(vec![0, 1]));
    nights.insert(NightId(59_001), ObsMapIndex::Split(vec![2, 3]));
    let ms = photom::layout::memberships_of(&Some(nights), &None, 4);
    let (rebuilt, _) = build_index_maps(&ms, &IndexLayout::Split);
    let mut pairs: Vec<(u32, usize)> = rebuilt
        .unwrap()
        .iter()
        .flat_map(|(n, e)| e.to_positions().into_iter().map(move |p| (n.0, p)))
        .collect();
    pairs.sort();
    assert_eq!(pairs, vec![(59_000, 0), (59_000, 1), (59_001, 2), (59_001, 3)]);
}

#[test]
fn repeated_trajectory_membership_is_never_a_range() {
    let t = TrajId::Int(5);
    let ms = vec![
        member(None, vec![t.clone(), t.clone()]),
        member(None, vec![t.clone()]),
    ];
    let (_, trajs) = build_index_maps(&ms, &IndexLayout::TryContiguous);
    let trajs = trajs.expect("trajectory index must exist");
    match &trajs[&t] {
        ObsMapIndex::Split(v) => assert_eq!(v, &vec![0, 0, 1]),
        other => panic!("expected Split, got {other:?}"),
    }
}
