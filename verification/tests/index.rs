use photom::index::{ContiguousChoice, GroupTracker, IndexBuilder, ObsMapIndex};
use photom::{NightId, TrajId};

fn positions(e: &ObsMapIndex) -> Vec<usize> {
    e.to_positions()
}

fn build(
    rows: &[(Option<u32>, Option<TrajId>)],
    choice: Option<ContiguousChoice>,
) -> (
    Option<photom::index::NightIndexMap>,
    Option<photom::index::TrajIndexMap>,
) {
    let mut b = IndexBuilder::new(true, true, choice);
    for (n, t) in rows {
        b.on_row(n.map(NightId), t.clone());
    }
    b.finish()
}

#[test]
fn split_index_lists_rows_per_key() {
    let rows = vec![
        (Some(1), Some(TrajId::Int(7))),
        (Some(2), None),
        (Some(1), Some(TrajId::Int(7))),
        (None, Some(TrajId::Str("a".into()))),
    ];
    let (nights, trajs) = build(&rows, None);
    let nights = nights.unwrap();
    let trajs = trajs.unwrap();
    assert_eq!(nights.len(), 2);
    match &nights[&NightId(1)] {
        ObsMapIndex::Split(v) => assert_eq!(v, &vec![0, 2]),
        other => panic!("expected Split, got {other:?}"),
    }
    assert_eq!(positions(&nights[&NightId(2)]), vec![1]);
    assert_eq!(positions(&trajs[&TrajId::Int(7)]), vec![0, 2]);
    assert_eq!(positions(&trajs[&TrajId::Str("a".into())]), vec![3]);
}

#[test]
fn night_id_contiguous_choice_builds_contiguous_index() {
    let rows = vec![
        (Some(10), Some(TrajId::Int(1))),
        (Some(10), Some(TrajId::Int(2))),
        (Some(11), Some(TrajId::Int(1))),
        (None, None),
    ];
    let (nights, trajs) = build(&rows, Some(ContiguousChoice::ContiguousNight));
    let nights = nights.unwrap();
    match &nights[&NightId(10)] {
        ObsMapIndex::Contiguous { start, end } => assert_eq!((*start, *end), (0, 2)),
        other => panic!("expected Contiguous, got {other:?}"),
    }
    match &nights[&NightId(11)] {
        ObsMapIndex::Contiguous { start, end } => assert_eq!((*start, *end), (2, 3)),
        other => panic!("expected Contiguous, got {other:?}"),
    }
    let trajs = trajs.unwrap();
    match &trajs[&TrajId::Int(1)] {
        ObsMapIndex::Split(v) => assert_eq!(v, &vec![0, 2]),
        other => panic!("expected Split, got {other:?}"),
    }
}

#[test]
fn traj_id_contiguous_choice_builds_contiguous_index() {
    let rows = vec![
        (Some(1), Some(TrajId::Str("x".into()))),
        (Some(2), Some(TrajId::Str("x".into()))),
        (Some(1), Some(TrajId::Str("y".into()))),
    ];
    let (nights, trajs) = build(&rows, Some(ContiguousChoice::ContiguousTraj));
    let trajs = trajs.unwrap();
    match &trajs[&TrajId::Str("x".into())] {
        ObsMapIndex::Contiguous { start, end } => assert_eq!((*start, *end), (0, 2)),
        other => panic!("expected Contiguous, got {other:?}"),
    }
    assert_eq!(positions(&trajs[&TrajId::Str("y".into())]), vec![2]);
    assert_eq!(positions(&nights.unwrap()[&NightId(1)]), vec![0, 2]);
}

#[test]
fn contiguous_and_split_agree_on_sorted_rows() {
    let rows = vec![
        (Some(5), None),
        (Some(5), None),
        (Some(6), None),
        (Some(7), None),
        (Some(7), None),
        (None, None),
    ];
    let (contiguous, _) = build(&rows, Some(ContiguousChoice::ContiguousNight));
    let (split, _) = build(&rows, None);
    let contiguous = contiguous.unwrap();
    let split = split.unwrap();
    assert_eq!(contiguous.len(), split.len());
    for (k, e) in split.iter() {
        assert_eq!(positions(&contiguous[k]), positions(e));
    }
}

#[test]
fn contiguous_index_keeps_last_run_of_unsorted_key() {
    let rows = vec![(Some(1), None), (Some(2), None), (Some(1), None)];
    let (nights, _) = build(&rows, Some(ContiguousChoice::ContiguousNight));
    let nights = nights.unwrap();
    assert_eq!(positions(&nights[&NightId(1)]), vec![2]);
}

#[test]
fn absent_column_gives_no_index() {
    let mut b = IndexBuilder::new(false, true, Some(ContiguousChoice::ContiguousNight));
    b.on_row(Some(NightId(1)), None);
    let (nights, trajs) = b.finish();
    assert!(nights.is_none());
    assert!(trajs.unwrap().is_empty());
}

#[test]
fn to_positions_expands_ranges() {
    assert_eq!(ObsMapIndex::Contiguous { start: 3, end: 6 }.to_positions(), vec![3, 4, 5]);
    assert_eq!(ObsMapIndex::Contiguous { start: 6, end: 3 }.to_positions(), Vec::<usize>::new());
    assert_eq!(ObsMapIndex::Split(vec![9, 1]).to_positions(), vec![9, 1]);
}

#[test]
fn push_split_appends() {
    let mut e = ObsMapIndex::Split(vec![1]);
    e.push_split(4);
    assert_eq!(e.to_positions(), vec![1, 4]);
}

#[test]
fn night_id_no_contiguous_choice_builds_split_index() {
    let rows = vec![(Some(3), None), (Some(4), None), (Some(3), None)];
    let (nights, _) = build(&rows, None);
    match &nights.unwrap()[&NightId(3)] {
        ObsMapIndex::Split(v) => assert_eq!(v, &vec![0, 2]),
        other => panic!("expected Split, got {other:?}"),
    }
}

#[test]
fn night_id_column_builds_night_index() {
    let mut b = IndexBuilder::new(true, false, None);
    b.on_row(Some(NightId(60000)), Some(TrajId::Int(1)));
    b.on_row(None, None);
    b.on_row(Some(NightId(60000)), None);
    let (nights, trajs) = b.finish();
    assert!(trajs.is_none());
    assert_eq!(nights.unwrap()[&NightId(60000)].to_positions(), vec![0, 2]);
}

/// Runs a fresh tracker over the keys and collects every run it hands out,
/// the final one included.
fn tracker_runs(keys: &[Option<u32>]) -> Vec<(u32, (usize, usize))> {
    let mut t: GroupTracker<NightId> = GroupTracker::new();
    let mut out = Vec::new();
    let mut push = |r: Option<(NightId, ObsMapIndex)>| {
        if let Some((k, e)) = r {
            match e {
                ObsMapIndex::Contiguous { start, end } => out.push((k.0, (start, end))),
                other => panic!("expected a range, got {other:?}"),
            }
        }
    };
    for (i, k) in keys.iter().enumerate() {
        push(t.on_row(i, k.map(NightId)));
    }
    push(t.finalize(keys.len()));
    out
}

#[test]
fn tracker_single_group_closes_at_row_count() {
    assert_eq!(tracker_runs(&[Some(7), Some(7), Some(7)]), vec![(7, (0, 3))]);
}

#[test]
fn tracker_lists_each_block_once() {
    let keys = [Some(4), Some(4), Some(9), Some(2), Some(2), Some(2), None, None];
    assert_eq!(
        tracker_runs(&keys),
        vec![(4, (0, 2)), (9, (2, 3)), (2, (3, 6))]
    );
    assert_eq!(tracker_runs(&[]), vec![]);
    assert_eq!(tracker_runs(&[None, None]), vec![]);
}
