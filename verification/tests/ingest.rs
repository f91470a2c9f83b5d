use photom::index::ContiguousChoice;
use photom::ingest::{
    null_in_required, resolve_batch_observer, resolve_observer, sorts_by_night, sorts_by_traj,
    FromPolarsArgs, LoadObsArgs, LoadObsError, PolarsError, RawObsRow, ResolvedObserver,
};
use photom::observation::ObserverId;
use photom::uri::UriStoreError;

fn row<'a>(
    lon: Option<f64>,
    lat: Option<f64>,
    alt: Option<f64>,
    ra: Option<f64>,
    dec: Option<f64>,
    code: Option<&'a str>,
) -> RawObsRow<'a, f64> {
    RawObsRow {
        obs_lon: lon,
        obs_lat: lat,
        obs_alt: alt,
        obs_ra_acc: ra,
        obs_dec_acc: dec,
        mpc_code: code,
    }
}

#[test]
fn load_args_default() {
    let a = LoadObsArgs::default();
    assert!(a.error_model.is_none());
    assert!(matches!(a.contiguous_choice, Some(ContiguousChoice::ContiguousNight)));
}

#[test]
fn polars_args_default() {
    let a = FromPolarsArgs::default();
    assert!(a.error_model.is_none());
    assert_eq!(a.lru_cache_size, Some(10000));
    assert_eq!(a.do_rechunk, Some(false));
    assert!(matches!(a.contiguous_choice, Some(ContiguousChoice::ContiguousNight)));
}

#[test]
fn sort_column_needs_presence() {
    assert!(sorts_by_night(Some(ContiguousChoice::ContiguousNight), true));
    assert!(!sorts_by_night(Some(ContiguousChoice::ContiguousNight), false));
    assert!(!sorts_by_night(Some(ContiguousChoice::ContiguousTraj), true));
    assert!(sorts_by_traj(Some(ContiguousChoice::ContiguousTraj), true));
    assert!(!sorts_by_traj(None, true));
}

#[test]
fn test_no_observer_columns() {
    let r = row(None, None, None, None, None, None);
    assert!(matches!(resolve_observer(&r, 0), Ok(ResolvedObserver::NoObserver)));
}

#[test]
fn test_mpc_code_observer() {
    let r = row(None, None, None, None, None, Some("I41"));
    match resolve_observer(&r, 0) {
        Ok(ResolvedObserver::Mpc(ObserverId::MpcCode(c))) => assert_eq!(&c, b"I41"),
        _ => panic!("expected an MPC observer"),
    }
}

#[test]
fn test_geodetic_observer() {
    let r = row(Some(1.5), Some(0.7), Some(100.0), Some(0.1), Some(0.2), None);
    match resolve_observer(&r, 0) {
        Ok(ResolvedObserver::Geodetic(g)) => {
            assert_eq!((g.lon, g.lat, g.alt, g.ra_acc, g.dec_acc), (1.5, 0.7, 100.0, 0.1, 0.2));
        }
        _ => panic!("expected a geodetic observer"),
    }
}

#[test]
fn test_partial_triplet_error() {
    let r = row(Some(1.5), None, Some(100.0), Some(0.1), Some(0.2), None);
    match resolve_observer(&r, 4) {
        Err(PolarsError::PartialTripletNull {
            row,
            obs_lon,
            obs_lat,
            obs_alt,
        }) => assert_eq!((row, obs_lon, obs_lat, obs_alt), (4, true, false, true)),
        other => panic!("Expected PolarsError::PartialTripletNull, got: {other:?}", other = other.err()),
    }
}

#[test]
fn test_missing_accuracy_error() {
    let r = row(Some(1.5), Some(0.7), Some(100.0), None, Some(0.2), None);
    assert!(matches!(
        resolve_observer(&r, 2),
        Err(PolarsError::MissingAccuracyForGeodesic(2))
    ));
    let r = row(Some(1.5), Some(0.7), Some(100.0), Some(0.1), None, None);
    assert!(matches!(
        resolve_observer(&r, 3),
        Err(PolarsError::MissingAccuracyForGeodesic(3))
    ));
}

#[test]
fn test_invalid_mpc_code() {
    let r = row(None, None, None, None, None, Some("ABCD"));
    match resolve_observer(&r, 0) {
        Err(PolarsError::InvalidMpcCode(s, i)) => assert_eq!((s.as_str(), i), ("ABCD", 0)),
        _ => panic!("Expected PolarsError::InvalidMpcCode"),
    }
}

#[test]
fn test_invalid_mpc_code_too_short() {
    let r = row(None, None, None, None, None, Some("AB"));
    assert!(matches!(resolve_observer(&r, 0), Err(PolarsError::InvalidMpcCode(_, _))));
}

#[test]
fn non_ascii_code_is_refused() {
    let r = row(None, None, None, None, None, Some("é1"));
    assert!(matches!(resolve_observer(&r, 0), Err(PolarsError::InvalidMpcCode(_, _))));
}

#[test]
fn test_mpc_takes_precedence_over_geodetic() {
    let r = row(Some(15.0), Some(48.0), Some(200.0), Some(1e-4), Some(1e-4), Some("I41"));
    match resolve_observer(&r, 0) {
        Ok(ResolvedObserver::Mpc(ObserverId::MpcCode(c))) => assert_eq!(&c, b"I41"),
        _ => panic!("expected the MPC code to win"),
    }
}

#[test]
fn partial_triplet_is_an_error_beside_an_mpc_code() {
    let r = row(Some(15.0), None, None, None, None, Some("I41"));
    match resolve_observer(&r, 0) {
        Err(PolarsError::PartialTripletNull { row, obs_lon, obs_lat, obs_alt }) => {
            assert_eq!((row, obs_lon, obs_lat, obs_alt), (0, true, false, false));
        }
        other => panic!("expected PartialTripletNull, got {:?}", other.err()),
    }
    let bad_code = row(None, Some(48.0), Some(200.0), None, None, Some("TOOLONG"));
    assert!(matches!(
        resolve_observer(&bad_code, 3),
        Err(PolarsError::PartialTripletNull { row: 3, .. })
    ));
    assert!(matches!(resolve_batch_observer(&r, 7), Err(LoadObsError::Arrow(_))));
}

#[test]
fn partial_geodetic_triplet_returns_arrow_error() {
    let r = row(Some(1.5), None, None, None, None, None);
    match resolve_batch_observer(&r, 12) {
        Err(LoadObsError::Arrow(m)) => assert_eq!(
            m,
            "partial geodetic triplet (obs_lon/obs_lat/obs_alt) at global row 12: all three must be either all non-null or all null"
        ),
        _ => panic!("expected an Arrow error"),
    }
}

#[test]
fn batch_observer_error_messages() {
    let r = row(None, None, None, None, None, Some("TOOLONG"));
    match resolve_batch_observer(&r, 7) {
        Err(LoadObsError::Arrow(m)) => assert_eq!(
            m,
            "invalid MPC code 'TOOLONG' at global row 7: must be exactly 3 ASCII bytes"
        ),
        _ => panic!("expected an Arrow error"),
    }
    let r = row(Some(1.0), Some(2.0), Some(3.0), None, None, None);
    match resolve_batch_observer(&r, 0) {
        Err(LoadObsError::Arrow(m)) => assert_eq!(
            m,
            "obs_ra_acc is null at global row 0 but geodetic triplet is fully set"
        ),
        _ => panic!("expected an Arrow error"),
    }
    let r = row(Some(1.0), Some(2.0), Some(3.0), Some(0.5), None, None);
    match resolve_batch_observer(&r, 1) {
        Err(LoadObsError::Arrow(m)) => assert_eq!(
            m,
            "obs_dec_acc is null at global row 1 but geodetic triplet is fully set"
        ),
        _ => panic!("expected an Arrow error"),
    }
    let r = row(None, None, None, None, None, Some("I41"));
    assert!(matches!(
        resolve_batch_observer(&r, 0),
        Ok(ResolvedObserver::Mpc(ObserverId::MpcCode(_)))
    ));
}

#[test]
fn null_required_column_message() {
    match null_in_required("ra", 42) {
        LoadObsError::Arrow(m) => assert_eq!(m, "null in required column 'ra' at global row 42"),
        other => panic!("unexpected {other:?}"),
    }
}

#[test]
fn load_error_messages() {
    assert_eq!(LoadObsError::NotFound("a".into()).message(), "resource not found: a");
    assert_eq!(LoadObsError::Resolve("b".into()).message(), "URI resolution error: b");
    assert_eq!(LoadObsError::DataFusion("c".into()).message(), "DataFusion error: c");
    assert_eq!(LoadObsError::Arrow("d".into()).message(), "Arrow conversion error: d");
    match LoadObsError::from_uri_error(&UriStoreError::UnsupportedScheme("s3".into())) {
        LoadObsError::Resolve(m) => assert_eq!(m, "unsupported URI scheme: s3"),
        other => panic!("unexpected {other:?}"),
    }
}

#[test]
fn missing_required_column_returns_arrow_error() {
    match photom::ingest::missing_column("mjd_tt") {
        LoadObsError::Arrow(m) => assert_eq!(m, "missing required column 'mjd_tt'"),
        other => panic!("unexpected {other:?}"),
    }
    match photom::ingest::column_type_mismatch("id", "UInt64") {
        LoadObsError::Arrow(m) => assert_eq!(m, "column 'id' is not UInt64"),
        other => panic!("unexpected {other:?}"),
    }
}

#[test]
fn mpc_code_obs_column_sets_mpc_observer() {
    let r = row(None, None, None, None, None, Some("W68"));
    assert!(matches!(
        resolve_batch_observer(&r, 0),
        Ok(ResolvedObserver::Mpc(ObserverId::MpcCode(c))) if &c == b"W68"
    ));
}

#[test]
fn base_columns_only_builds_dataset_with_no_observer() {
    let r = row(None, None, None, None, None, None);
    assert!(matches!(resolve_batch_observer(&r, 0), Ok(ResolvedObserver::NoObserver)));
}

#[test]
fn rechunk_decision() {
    assert!(photom::ingest::should_rechunk(true, None));
    assert!(photom::ingest::should_rechunk(true, Some(true)));
    assert!(!photom::ingest::should_rechunk(true, Some(false)));
    assert!(!photom::ingest::should_rechunk(false, Some(true)));
}

#[test]
fn first_null_required_cell_refuses_row() {
    assert!(photom::ingest::check_required_cells([false; 9], 0).is_ok());
    let mut nulls = [false; 9];
    nulls[4] = true;
    nulls[8] = true;
    match photom::ingest::check_required_cells(nulls, 5) {
        Err(LoadObsError::Arrow(m)) => {
            assert_eq!(m, "null in required column 'dec_err' at global row 5")
        }
        other => panic!("unexpected {:?}", other.err()),
    }
    let mut nulls = [false; 9];
    nulls[8] = true;
    match photom::ingest::check_required_cells(nulls, 0) {
        Err(LoadObsError::Arrow(m)) => {
            assert_eq!(m, "null in required column 'filter' at global row 0")
        }
        other => panic!("unexpected {:?}", other.err()),
    }
}
