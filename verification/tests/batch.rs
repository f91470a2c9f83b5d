use photom::batch::{RowIngest, SiteTable};
use photom::index::ObsMapIndex;
use photom::ingest::{LoadObsError, RawObsRow};
use photom::observation::ObserverId;
use photom::NightId;

fn row<'a>(site: Option<[f64; 5]>, code: Option<&'a str>) -> RawObsRow<'a, f64> {
    match site {
        Some(v) => RawObsRow {
            obs_lon: Some(v[0]),
            obs_lat: Some(v[1]),
            obs_alt: Some(v[2]),
            obs_ra_acc: Some(v[3]),
            obs_dec_acc: Some(v[4]),
            mpc_code: code,
        },
        None => RawObsRow {
            obs_lon: None,
            obs_lat: None,
            obs_alt: None,
            obs_ra_acc: None,
            obs_dec_acc: None,
            mpc_code: code,
        },
    }
}

fn key(v: [f64; 5]) -> [u64; 5] {
    v.map(f64::to_bits)
}

#[test]
fn interning_stores_each_site_once_in_first_seen_order() {
    let mut t: SiteTable<&str> = SiteTable::new();
    assert_eq!(t.intern([1, 2, 3, 4, 5], "a"), 0);
    assert_eq!(t.intern([9, 9, 9, 9, 9], "b"), 1);
    assert_eq!(t.intern([1, 2, 3, 4, 5], "a again"), 0);
    assert_eq!(t.into_sites(), vec!["a", "b"]);
}

#[test]
fn rows_share_interned_sites_and_keep_row_order() {
    let s1 = [1.5, 0.7, 120.0, 1e-4, 1e-4];
    let s2 = [2.5, -0.3, 10.0, 1e-4, 2e-4];
    let mut acc: RowIngest<u32, [f64; 5]> = RowIngest::new(true, false, None);
    let ok = [false; 9];
    for (i, (site, code, night)) in [
        (Some(s1), None, 7),
        (None, Some("I41"), 7),
        (Some(s2), None, 8),
        (Some(s1), None, 8),
        (None, None, 9),
    ]
    .into_iter()
    .enumerate()
    {
        let r = row(site, code);
        let site = site.map(|v| Ok((key(v), v)));
        acc.ingest_row(ok, &r, site, 100 + i as u64, Some(NightId(night)), None, i as u32)
            .expect("row accepted");
    }
    assert_eq!(acc.row_count(), 5);
    let (obs, sites, night, traj) = acc.finish();
    assert_eq!(sites, vec![s1, s2]);
    let observers: Vec<_> = obs.iter().map(|o| o.observer).collect();
    assert_eq!(
        observers,
        vec![
            Some(ObserverId::IntId(0)),
            Some(ObserverId::MpcCode(*b"I41")),
            Some(ObserverId::IntId(1)),
            Some(ObserverId::IntId(0)),
            None,
        ]
    );
    assert_eq!(obs.iter().map(|o| o.id).collect::<Vec<_>>(), vec![100, 101, 102, 103, 104]);
    assert_eq!(obs.iter().map(|o| o.measurement).collect::<Vec<_>>(), vec![0, 1, 2, 3, 4]);
    let night = night.expect("night index");
    match &night[&NightId(8)] {
        ObsMapIndex::Split(v) => assert_eq!(v, &vec![2, 3]),
        other => panic!("expected Split, got {other:?}"),
    }
    assert!(traj.is_none());
}

#[test]
fn refused_rows_change_nothing() {
    let mut acc: RowIngest<u32, [f64; 5]> = RowIngest::new(true, true, None);
    let ok = [false; 9];
    acc.ingest_row(ok, &row(None, None), None, 1, None, None, 0).unwrap();

    let mut nulls = [false; 9];
    nulls[3] = true;
    match acc.ingest_row(nulls, &row(None, None), None, 2, None, None, 1) {
        Err(LoadObsError::Arrow(m)) => {
            assert_eq!(m, "null in required column 'dec' at global row 1")
        }
        _ => panic!("expected a null-cell error"),
    }
    let partial = RawObsRow {
        obs_lon: Some(1.0),
        obs_lat: None,
        obs_alt: None,
        obs_ra_acc: None,
        obs_dec_acc: None,
        mpc_code: Some("I41"),
    };
    match acc.ingest_row(ok, &partial, None, 3, None, None, 2) {
        Err(LoadObsError::Arrow(m)) => assert_eq!(
            m,
            "partial geodetic triplet (obs_lon/obs_lat/obs_alt) at global row 1: all three must be either all non-null or all null"
        ),
        _ => panic!("expected a partial-triplet error"),
    }
    assert_eq!(acc.row_count(), 1);
    let (obs, sites, _, _) = acc.finish();
    assert_eq!(obs.len(), 1);
    assert!(sites.is_empty());
}

#[test]
fn a_refused_site_refuses_its_row() {
    let mut acc: RowIngest<u32, [f64; 5]> = RowIngest::new(false, false, None);
    let v = [f64::NAN, 0.1, 10.0, 1e-4, 1e-4];
    match acc.ingest_row([false; 9], &row(Some(v), None), Some(Err("not a number".to_string())), 1, None, None, 0) {
        Err(LoadObsError::Arrow(m)) => assert_eq!(m, "invalid observer at global row 0: not a number"),
        _ => panic!("expected an invalid-observer error"),
    }
    assert_eq!(acc.row_count(), 0);
}
