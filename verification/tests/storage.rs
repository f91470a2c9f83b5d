use photom::uri::{resolve_input_uri, resolve_url, InputUri, StoreTarget, UriStoreError, UrlParts};

fn url(s: &str) -> UrlParts {
    InputUri(s.to_string()).parse().expect("test URL must parse")
}

#[test]
fn resolve_input_uri_invalid_uri_maps_to_invalid_uri() {
    let uri = InputUri("not a uri".to_string());
    match resolve_input_uri(&uri).unwrap_err() {
        UriStoreError::InvalidUri(s) => assert_eq!(s, "not a uri"),
        other => panic!("expected InvalidUri, got: {other:?}"),
    }
}

#[test]
fn resolve_url_unsupported_scheme() {
    let u = url("s3://bucket/key");
    match resolve_url(&u).unwrap_err() {
        UriStoreError::UnsupportedScheme(s) => assert_eq!(s, "s3"),
        other => panic!("expected UnsupportedScheme, got: {other:?}"),
    }
}

#[test]
fn resolve_file_makes_absolute_fs_path_relative() {
    let u = url("file:///tmp/test.parquet");
    let resolved = resolve_url(&u).expect("file:// should resolve");
    assert_eq!(resolved.path(), "tmp/test.parquet");
    assert!(matches!(resolved, StoreTarget::LocalFile { .. }));
}

#[test]
fn resolve_file_root_path_is_empty_relative_path() {
    let u = url("file:///");
    let resolved = resolve_url(&u).expect("file:/// should resolve");
    assert_eq!(resolved.path(), "");
}

#[test]
fn resolve_hdfs_missing_authority_is_error() {
    let u = url("hdfs:///data/file.parquet");
    match resolve_url(&u).unwrap_err() {
        UriStoreError::MissingAuthority(s) => {
            assert_eq!(s, "hdfs:///data/file.parquet");
        }
        other => panic!("expected MissingAuthority, got: {other:?}"),
    }
}

#[test]
fn resolve_hdfs_returns_relative_path_without_leading_slash() {
    let u = url("hdfs://localhost:9870/some/path.parquet");
    let resolved = resolve_url(&u).expect("hdfs URL with a host resolves");
    assert_eq!(resolved.path(), "some/path.parquet");
    match resolved {
        StoreTarget::Hdfs { base, .. } => assert_eq!(base, "hdfs://localhost:9870"),
        other => panic!("expected Hdfs, got: {other:?}"),
    }
}

#[test]
fn resolve_hdfs_without_port_has_host_only_base() {
    let u = url("hdfs://namenode/a/b.parquet");
    match resolve_url(&u).expect("resolves") {
        StoreTarget::Hdfs { base, path } => {
            assert_eq!(base, "hdfs://namenode");
            assert_eq!(path, "a/b.parquet");
        }
        other => panic!("expected Hdfs, got: {other:?}"),
    }
}

#[test]
fn resolve_http_uses_full_url_as_path() {
    let uri = InputUri("http://example.com/data.parquet".to_string());
    match resolve_input_uri(&uri).expect("resolves") {
        StoreTarget::Http { path } => assert_eq!(path, "http://example.com/data.parquet"),
        other => panic!("expected Http, got: {other:?}"),
    }
}

#[test]
fn resolve_https_uses_full_url_as_path() {
    let uri = InputUri("https://example.com/a/b/c".to_string());
    match resolve_input_uri(&uri).expect("resolves") {
        StoreTarget::Http { path } => assert_eq!(path, "https://example.com/a/b/c"),
        other => panic!("expected Http, got: {other:?}"),
    }
}

#[test]
fn uri_error_messages() {
    assert_eq!(UriStoreError::InvalidUri("x".to_string()).message(), "invalid URI: x");
    assert_eq!(
        UriStoreError::UnsupportedScheme("s3".to_string()).message(),
        "unsupported URI scheme: s3"
    );
    assert_eq!(
        UriStoreError::MissingAuthority("hdfs:///a".to_string()).message(),
        "HDFS URI missing authority (host): hdfs:///a"
    );
    assert_eq!(
        UriStoreError::HdfsBuild("boom".to_string()).message(),
        "HDFS store build error: boom"
    );
}
