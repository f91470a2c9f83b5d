use photom::uri::{InputUri, UrlParseError};

#[test]
fn parse_valid_http_uri() {
    let uri = InputUri("https://example.com/data.parquet".to_string());
    let parsed = uri.parse().expect("URI should parse");
    assert_eq!(parsed.scheme(), "https");
    assert_eq!(parsed.host_str(), Some("example.com"));
    assert_eq!(parsed.path(), "/data.parquet");
}

#[test]
fn parse_valid_file_uri() {
    let uri = InputUri("file:///tmp/test.parquet".to_string());
    let parsed = uri.parse().expect("file URI should parse");
    assert_eq!(parsed.scheme(), "file");
    assert_eq!(parsed.path(), "/tmp/test.parquet");
}

#[test]
fn parse_invalid_uri() {
    let uri = InputUri("not a valid uri".to_string());
    assert!(uri.parse().is_err(), "invalid URI should return error");
}

#[test]
fn display_round_trips_inner_string() {
    let uri = InputUri("file:///data/obs.parquet".to_string());
    assert_eq!(uri.to_string(), "file:///data/obs.parquet");
}

#[test]
fn from_str_wraps_text_unchanged() {
    let uri: InputUri = "https://example.com/obs.parquet".parse().unwrap();
    assert_eq!(uri.0, "https://example.com/obs.parquet");
}

#[test]
fn parse_keeps_port_and_text() {
    let parsed = InputUri("hdfs://namenode:9000/data/obs.parquet".to_string())
        .parse()
        .expect("URI should parse");
    assert_eq!(parsed.scheme(), "hdfs");
    assert_eq!(parsed.host_str(), Some("namenode"));
    assert_eq!(parsed.port, Some(9000));
    assert_eq!(parsed.path(), "/data/obs.parquet");
    assert_eq!(parsed.as_str(), "hdfs://namenode:9000/data/obs.parquet");
}

#[test]
fn parse_reports_the_refusal() {
    let err = |t: &str| InputUri(t.to_string()).parse().err();
    assert_eq!(err("not a valid uri"), Some(UrlParseError::RelativeUrlWithoutBase));
    assert_eq!(err("http://host:99999/x"), Some(UrlParseError::InvalidPort));
    assert_eq!(err("http://[::1/x"), Some(UrlParseError::InvalidIpv6Address));
    assert_eq!(err("http://host/x"), None);
}
