use chronik_server::error_handler::{ErrorCode, ErrorHandler};
use chronik_server::request_frame::{
    build_response_frame, classify_request_size, error_reply, frame_forwarded_request, parse_request_metadata,
    split_forwarded_response, uses_data_plane, FrameSize,
    MAX_CONTROL_REQUESTS, MAX_PRODUCE_REQUESTS,
};

#[test]
fn size_prefix_of_a_normal_request_is_valid() {
    assert_eq!(classify_request_size(&[0, 0, 0, 42]), FrameSize::Valid(42));
    assert_eq!(classify_request_size(&100u32.to_be_bytes()), FrameSize::Valid(100));
    assert_eq!(
        classify_request_size(&10_000_000i32.to_be_bytes()),
        FrameSize::Valid(10_000_000)
    );
}

#[test]
fn size_prefix_zero_or_too_large_is_invalid() {
    assert_eq!(classify_request_size(&[0, 0, 0, 0]), FrameSize::Invalid);
    assert_eq!(classify_request_size(&10_000_001i32.to_be_bytes()), FrameSize::Invalid);
    assert_eq!(classify_request_size(&100_000_000i32.to_be_bytes()), FrameSize::Invalid);
}

#[test]
fn size_prefix_of_another_protocol_is_suspicious() {
    // "5.0\0" read as a size: 892219392 bytes.
    assert_eq!(classify_request_size(b"5.0\0"), FrameSize::Suspicious);
    assert_eq!(classify_request_size(&100_000_001i32.to_be_bytes()), FrameSize::Suspicious);
    assert_eq!(classify_request_size(&[0xff, 0xff, 0xff, 0xff]), FrameSize::Suspicious);
}

#[test]
fn request_metadata_is_read_from_the_header() {
    let req = [0u8, 3, 0, 9, 0, 0, 1, 2, 0xaa];
    assert_eq!(parse_request_metadata(&req, req.len()), (3, 9, 258));
    let neg = [0xffu8, 0xfe, 0x80, 0x00, 0xff, 0xff, 0xff, 0xff];
    assert_eq!(parse_request_metadata(&neg, 8), (-2, -32768, -1));
}

#[test]
fn short_request_has_zero_metadata() {
    let req = [0u8, 3, 0, 9, 0, 0, 1];
    assert_eq!(parse_request_metadata(&req, 7), (0, 0, 0));
}

#[test]
fn produce_and_fetch_use_the_data_plane() {
    assert!(uses_data_plane(&[0, 0, 0, 9]));
    assert!(uses_data_plane(&[0, 1]));
    assert!(!uses_data_plane(&[0, 3, 0, 0]));
    assert!(!uses_data_plane(&[1, 0]));
    assert!(!uses_data_plane(&[0]));
    assert!(!uses_data_plane(&[]));
    assert_eq!(MAX_PRODUCE_REQUESTS, 1000);
    assert_eq!(MAX_CONTROL_REQUESTS, 100);
}

#[test]
fn error_reply_keeps_api_and_correlation() {
    let handler = ErrorHandler::new();
    // Metadata (3) v1: body is the error code.
    let r = error_reply(&handler, ErrorCode::UnknownTopicOrPartition, 7, &[0, 3, 0, 1, 0, 0, 0, 7]);
    assert_eq!(r, vec![0, 0, 0, 6, 0, 0, 0, 7, 0, 3]);
    // Produce (0) v1: zero throttle time and zero count.
    let r = error_reply(&handler, ErrorCode::UnknownTopicOrPartition, 5, &[0, 0, 0, 1]);
    assert_eq!(r, vec![0, 0, 0, 12, 0, 0, 0, 5, 0, 0, 0, 0, 0, 0, 0, 0]);
    // A request too short for its header is answered as API 0 version 0.
    let r = error_reply(&handler, ErrorCode::UnknownTopicOrPartition, 5, &[0, 3]);
    assert_eq!(r, vec![0, 0, 0, 8, 0, 0, 0, 5, 0, 0, 0, 0]);
}

#[test]
fn responses_are_framed_with_their_size() {
    // Non-flexible: size, correlation id, body.
    assert_eq!(build_response_frame(7, false, 3, &[0xaa, 0xbb]), vec![0, 0, 0, 6, 0, 0, 0, 7, 0xaa, 0xbb]);
    // Flexible: an empty tagged-field byte after the correlation id.
    assert_eq!(build_response_frame(7, true, 3, &[0xaa]), vec![0, 0, 0, 6, 0, 0, 0, 7, 0, 0xaa]);
    // Flexible ApiVersions keeps the old header.
    assert_eq!(build_response_frame(-1, true, 18, &[]), vec![0, 0, 0, 4, 0xff, 0xff, 0xff, 0xff]);
}

#[test]
fn forwarded_requests_and_responses() {
    assert_eq!(frame_forwarded_request(&[9, 8, 7]), vec![0, 0, 0, 3, 9, 8, 7]);
    assert_eq!(frame_forwarded_request(&[]), vec![0, 0, 0, 0]);
    assert_eq!(split_forwarded_response(&[0, 0, 1, 2, 0xaa]), Some((258, vec![0xaa])));
    assert_eq!(split_forwarded_response(&[0xff, 0xff, 0xff, 0xfe]), Some((-2, vec![])));
    assert_eq!(split_forwarded_response(&[0, 0, 1]), None);
}
