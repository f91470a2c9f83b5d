use photom::mpc80::{
    extract_traj_id, fraction_digits, mpc_str_to_bytes, parse_angle, parse_date, parse_line,
    observations_of, parse_mpc_80_col_str, Mpc80ColError,
};
use photom::observation::ObserverId;
use photom::index::ObsMapIndex;
use photom::TrajId;

const NUMBERED: &str =
    "08467         C2024 12 03.05243000 23 45.348+08 01 18.05         18.93cV~8TCpW68";
const PROVISIONAL: &str =
    "     K09R05F* C2009 09 15.22735 22 52 23.37 -14 47 05.4          20.7 Vr~097wG96";

/// Seconds of the decimal precision of a seconds field, as the caller
/// computes it from the number of decimals.
fn decimal_precision_arcsec(seconds: &str) -> f64 {
    10f64.powi(-(fraction_digits(seconds) as i32))
}

fn angle_value(whole: &str, minutes: &str, seconds: &str) -> f64 {
    whole.parse::<f64>().unwrap()
        + minutes.parse::<f64>().unwrap() / 60.0
        + seconds.parse::<f64>().unwrap() / 3600.0
}

#[test]
fn test_extract_traj_id_numbered() {
    assert_eq!(extract_traj_id(NUMBERED), TrajId::Int(8467));
}

#[test]
fn test_extract_traj_id_provisional() {
    assert_eq!(extract_traj_id(PROVISIONAL), TrajId::Str("K09R05F".to_string()));
}

#[test]
fn test_parse_ra_basic() {
    let f = parse_angle("22 52 23.37", false).unwrap();
    assert!(!f.negative);
    assert_eq!((f.whole.as_str(), f.minutes.as_str(), f.seconds.as_str()), ("22", "52", "23.37"));
    let ra = angle_value(&f.whole, &f.minutes, &f.seconds) * 15.0;
    let expected = (22.0 + 52.0 / 60.0 + 23.37 / 3600.0) * 15.0;
    assert!((ra - expected).abs() < 1e-9);
    let acc = decimal_precision_arcsec(&f.seconds) * 15.0;
    assert!((acc - 0.15).abs() < 1e-9);
}

#[test]
fn test_parse_dec_negative() {
    let f = parse_angle("-14 47 05.4", true).unwrap();
    assert!(f.negative);
    let dec = -angle_value(&f.whole, &f.minutes, &f.seconds);
    let expected = -(14.0 + 47.0 / 60.0 + 5.4 / 3600.0);
    assert!((dec - expected).abs() < 1e-9);
    let acc = decimal_precision_arcsec(&f.seconds);
    assert!((acc - 0.1).abs() < 1e-9);
}

#[test]
fn test_parse_dec_positive_explicit_sign() {
    let f = parse_angle("+08 01 18.05", true).unwrap();
    assert!(!f.negative);
    let dec = angle_value(&f.whole, &f.minutes, &f.seconds);
    let expected = 8.0 + 1.0 / 60.0 + 18.05 / 3600.0;
    assert!((dec - expected).abs() < 1e-9);
}

#[test]
fn test_parse_frac_date() {
    let d = parse_date("2009 09 15.22735").unwrap();
    assert_eq!(d.year, 2009);
    assert_eq!(d.month, 9);
    assert_eq!(d.day, "15.22735");
}

#[test]
fn test_decimal_precision_arcsec() {
    assert_eq!(decimal_precision_arcsec("23.37"), 0.01);
    assert_eq!(decimal_precision_arcsec("05.4"), 0.1);
    assert_eq!(decimal_precision_arcsec("18.05"), 0.01);
    assert_eq!(decimal_precision_arcsec("45.348"), 0.001);
}

#[test]
fn fraction_digits_counts_decimals() {
    assert_eq!(fraction_digits("23.37"), 2);
    assert_eq!(fraction_digits("45.348  "), 3);
    assert_eq!(fraction_digits("12"), 0);
    assert_eq!(fraction_digits("7."), 0);
    // Counted in bytes after the point, as the byte offsets of the text go.
    assert_eq!(fraction_digits("1.2é\u{3000}"), 3);
}

#[test]
fn angle_grammar_refusals() {
    assert!(parse_angle("2252 23.37", false).is_none());
    assert!(parse_angle("22 52 ..", false).is_none());
    assert!(parse_angle("22 52 1.2.3", false).is_none());
    assert!(parse_angle("-22 52 23", false).is_none());
    assert!(parse_angle("-22 52 23", true).is_some());
}

#[test]
fn date_grammar_refusals() {
    assert!(parse_date("2009 300 15.2").is_none());
    assert!(parse_date("99999999999 09 15.2").is_none());
    assert!(parse_date("2009 09").is_none());
}

#[test]
fn mpc_code_is_padded_with_spaces() {
    assert_eq!(mpc_str_to_bytes("W68"), *b"W68");
    assert_eq!(mpc_str_to_bytes("G9"), *b"G9 ");
    assert_eq!(mpc_str_to_bytes(""), *b"   ");
    assert_eq!(mpc_str_to_bytes("ABCD"), *b"ABC");
}

#[test]
fn parse_line_reads_fixed_columns() {
    let rec = parse_line(PROVISIONAL).unwrap();
    assert_eq!(rec.traj_id, TrajId::Str("K09R05F".to_string()));
    assert_eq!(rec.date.year, 2009);
    assert_eq!(rec.date.day, "15.22735");
    assert_eq!(rec.ra.seconds, "23.37");
    assert!(rec.dec.negative);
    assert_eq!(rec.mag, "20.7");
    assert_eq!(rec.band.as_deref(), Some("V"));
    assert_eq!(rec.obs_code, *b"G96");
}

#[test]
fn parse_line_trims_magnitude_suffix() {
    let rec = parse_line(NUMBERED).unwrap();
    assert_eq!(rec.mag, "18.93");
    assert_eq!(rec.band.as_deref(), Some("c"));
    assert_eq!(rec.obs_code, *b"W68");
}

#[test]
fn parse_line_reports_bad_fields() {
    let bad_date = PROVISIONAL.replacen("2009 09 15.22735", "2009-09-15.22735", 1);
    assert_eq!(parse_line(&bad_date).err().unwrap(), "invalid date field: '2009-09-15.22735'");
    let bad_ra = PROVISIONAL.replacen("22 52 23.37", "22h52m23.37", 1);
    assert_eq!(parse_line(&bad_ra).err().unwrap(), "invalid RA field: '22h52m23.37'");
    let bad_dec = PROVISIONAL.replacen("-14 47 05.4", "-14:47:05.4", 1);
    assert_eq!(parse_line(&bad_dec).err().unwrap(), "invalid Dec field: '-14:47:05.4'");
}

#[test]
fn file_groups_under_numbered_designation() {
    let content = format!("{PROVISIONAL}\n{NUMBERED}\n");
    let data = parse_mpc_80_col_str(&content).unwrap();
    assert_eq!(data.records.len(), 2);
    let entry = data.traj_index.get(&TrajId::Int(8467)).expect("primary entry");
    match entry {
        ObsMapIndex::Split(v) => assert_eq!(v, &vec![0usize, 1]),
        other => panic!("expected Split, got {other:?}"),
    }
    assert_eq!(data.traj_index.len(), 1);
    assert_eq!(data.resolve_alias("K09R05F"), Some(&TrajId::Int(8467)));
    assert!(data.resolve_alias("unknown").is_none());
}

#[test]
fn file_without_number_uses_first_designation() {
    let second = PROVISIONAL.replacen("K09R05F", "K09R05G", 1);
    let content = format!("{PROVISIONAL}\r\n{second}");
    let data = parse_mpc_80_col_str(&content).unwrap();
    assert_eq!(data.records.len(), 2);
    assert!(data.traj_index.contains_key(&TrajId::Str("K09R05F".to_string())));
    assert_eq!(
        data.resolve_alias("K09R05G"),
        Some(&TrajId::Str("K09R05F".to_string()))
    );
    assert!(data.resolve_alias("K09R05F").is_none());
}

#[test]
fn file_skips_short_and_satellite_lines() {
    let satellite = {
        let mut b = PROVISIONAL.as_bytes().to_vec();
        b[14] = b's';
        String::from_utf8(b).unwrap()
    };
    let content = format!("header\n{satellite}\n{PROVISIONAL}\n\n");
    let data = parse_mpc_80_col_str(&content).unwrap();
    assert_eq!(data.records.len(), 1);
}

#[test]
fn file_reports_first_bad_line_number() {
    let bad = PROVISIONAL.replacen("22 52 23.37", "22 52 xx.xx", 1);
    let content = format!("short\n{PROVISIONAL}\n{bad}\n{bad}\n");
    match parse_mpc_80_col_str(&content) {
        Err(Mpc80ColError::InvalidLine { line_no, line, reason }) => {
            assert_eq!(line_no, 3);
            assert_eq!(line, bad);
            assert_eq!(reason, "invalid RA field: '22 52 xx.xx'");
        }
        Err(other) => panic!("unexpected error {other:?}"),
        Ok(_) => panic!("expected an error"),
    }
}

#[test]
fn empty_file_has_empty_primary() {
    let data = parse_mpc_80_col_str("").unwrap();
    assert!(data.records.is_empty());
    match data.traj_index.get(&TrajId::Str(String::new())) {
        Some(ObsMapIndex::Split(v)) => assert!(v.is_empty()),
        other => panic!("expected an empty Split entry, got {other:?}"),
    }
}

#[test]
fn file_skips_short_non_ascii_comment_line() {
    let content = format!("# observé à Genève\n{PROVISIONAL}\n");
    let data = parse_mpc_80_col_str(&content).unwrap();
    assert_eq!(data.records.len(), 1);
    assert_eq!(data.records[0].traj_id, TrajId::Str("K09R05F".to_string()));
}

#[test]
fn file_ignores_non_ascii_text_past_column_80() {
    let content = format!("{PROVISIONAL} — remarque\n");
    let data = parse_mpc_80_col_str(&content).unwrap();
    assert_eq!(data.records.len(), 1);
    assert_eq!(data.records[0].obs_code, *b"G96");
}

#[test]
fn non_ascii_designation_is_kept_as_text() {
    // "K09R05F" (7 bytes) replaced by "Ké9R05" (7 bytes: 'é' takes two).
    let line = PROVISIONAL.replacen("K09R05F", "Ké9R05", 1);
    assert_eq!(line.len(), PROVISIONAL.len());
    let rec = parse_line(&line).unwrap();
    assert_eq!(rec.traj_id, TrajId::Str("Ké9R05".to_string()));
    assert_eq!(rec.date.day, "15.22735");
}

#[test]
fn non_ascii_in_date_field_is_refused_with_its_text() {
    // The 17-byte date column "2009 09 15.22735 " becomes "2é09 09 15.2273 ",
    // also 17 bytes ('é' takes two).
    let line = PROVISIONAL.replacen("2009 09 15.22735 ", "2é09 09 15.2273 ", 1);
    assert_eq!(line.len(), PROVISIONAL.len());
    assert_eq!(parse_line(&line).err().unwrap(), "invalid date field: '2é09 09 15.2273'");
}

#[test]
fn observations_are_numbered_with_their_codes() {
    let content = format!("{PROVISIONAL}\n{NUMBERED}\n");
    let data = parse_mpc_80_col_str(&content).unwrap();
    let obs = observations_of(&data.records, vec!["a", "b"]);
    assert_eq!(obs.len(), 2);
    assert_eq!((obs[0].id, obs[1].id), (0, 1));
    assert_eq!((obs[0].measurement, obs[1].measurement), ("a", "b"));
    assert!(obs[0].night_id.is_none() && obs[1].night_id.is_none());
    assert_eq!(obs[0].observer, Some(ObserverId::MpcCode(*b"G96")));
    assert_eq!(obs[1].observer, Some(ObserverId::MpcCode(*b"W68")));
}
