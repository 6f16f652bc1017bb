//! The answer to ApiVersions: which request types this broker serves, and
//! in which versions.
use vstd::prelude::*;

verus! {

/// The version range served for one API.
#[derive(Clone, Copy, Debug, PartialEq, Eq, Structural)]
pub struct ApiVersionsResponseKey {
    pub api_key: i16,
    pub min_version: i16,
    pub max_version: i16,
}

/// An ApiVersions answer.
#[derive(Clone, Debug)]
pub struct ApiVersionsResponse {
    pub correlation_id: i32,
    pub error_code: i16,
    pub api_keys: Vec<ApiVersionsResponseKey>,
    pub throttle_time_ms: i32,
}

/// The APIs served, as (API key, lowest version, highest version): Produce
/// up to version 8, Fetch up to 11, Metadata up to 9, OffsetCommit up to 8,
/// OffsetFetch up to 7, JoinGroup up to 7, Heartbeat up to 4, LeaveGroup up
/// to 4, SyncGroup up to 5, ApiVersions up to 3, each from version 0.
pub open spec fn supported_apis() -> Seq<(i16, i16, i16)> {
    seq![
        (0i16, 0i16, 8i16),
        (1i16, 0i16, 11i16),
        (3i16, 0i16, 9i16),
        (8i16, 0i16, 8i16),
        (9i16, 0i16, 7i16),
        (11i16, 0i16, 7i16),
        (12i16, 0i16, 4i16),
        (13i16, 0i16, 4i16),
        (14i16, 0i16, 5i16),
        (18i16, 0i16, 3i16),
    ]
}

/// A version range as plain values.
pub open spec fn key_view(k: ApiVersionsResponseKey) -> (i16, i16, i16) {
    (k.api_key, k.min_version, k.max_version)
}

fn key(api_key: i16, min_version: i16, max_version: i16) -> (k: ApiVersionsResponseKey)
    ensures
        key_view(k) == (api_key, min_version, max_version),
{
    ApiVersionsResponseKey { api_key, min_version, max_version }
}

/// The ApiVersions answer under `correlation_id`: no error, no throttle,
/// the supported APIs in the order of `supported_apis`.
pub fn handle_api_versions(correlation_id: i32) -> (r: ApiVersionsResponse)
    ensures
        r.correlation_id == correlation_id,
        r.error_code == 0,
        r.throttle_time_ms == 0,
        r.api_keys@.map_values(|k: ApiVersionsResponseKey| key_view(k)) == supported_apis(),
{
    let api_keys = vec![
        key(0, 0, 8),
        key(1, 0, 11),
        key(3, 0, 9),
        key(8, 0, 8),
        key(9, 0, 7),
        key(11, 0, 7),
        key(12, 0, 4),
        key(13, 0, 4),
        key(14, 0, 5),
        key(18, 0, 3),
    ];
    assert(api_keys@.map_values(|k: ApiVersionsResponseKey| key_view(k)) =~= supported_apis());
    ApiVersionsResponse { correlation_id, error_code: 0, api_keys, throttle_time_ms: 0 }
}

} // verus!
