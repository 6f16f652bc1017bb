use chronik_server::api_versions::{handle_api_versions, ApiVersionsResponseKey};

#[test]
fn api_versions_lists_the_served_apis() {
    let r = handle_api_versions(42);
    assert_eq!((r.correlation_id, r.error_code, r.throttle_time_ms), (42, 0, 0));
    let ranges: Vec<(i16, i16, i16)> = r.api_keys.iter().map(|k| (k.api_key, k.min_version, k.max_version)).collect();
    assert_eq!(
        ranges,
        vec![(0, 0, 8), (1, 0, 11), (3, 0, 9), (8, 0, 8), (9, 0, 7), (11, 0, 7), (12, 0, 4), (13, 0, 4), (14, 0, 5), (18, 0, 3)]
    );
    assert_eq!(r.api_keys[9], ApiVersionsResponseKey { api_key: 18, min_version: 0, max_version: 3 });
}
