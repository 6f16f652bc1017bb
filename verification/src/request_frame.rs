//! The framing of a request on a connection: the size prefix, the header
//! fields read for routing and error replies, and which semaphore (data or
//! control plane) the request waits on.
use vstd::prelude::*;
use crate::wire::{be_i16_at, be_i32, be_i32_at, push_be_i32, read_be_i16, read_be_i32};
use crate::error_handler::{ErrorCode, ErrorHandler, error_response};

verus! {

/// What a request's size prefix says.
#[derive(Clone, Copy, Debug, PartialEq, Eq, Structural)]
pub enum FrameSize {
    /// Over 100,000,000 (or negative): likely another protocol; skip.
    Suspicious,
    /// Zero or over 10,000,000: drain and skip.
    Invalid,
    /// A body of this many bytes follows.
    Valid(usize),
}

/// How a size prefix reading `n` is treated.
pub open spec fn frame_size_of(n: i32) -> FrameSize {
    if n < 0 || n > 100_000_000 {
        FrameSize::Suspicious
    } else if n == 0 || n > 10_000_000 {
        FrameSize::Invalid
    } else {
        FrameSize::Valid(n as usize)
    }
}

/// Classifies the four big-endian size bytes that start a request.
pub fn classify_request_size(size_buf: &[u8]) -> (r: FrameSize)
    requires
        size_buf@.len() == 4,
    ensures
        r == frame_size_of(read_be_i32(size_buf@, 0)),
{
    let n = be_i32_at(size_buf, 0);
    if n < 0 || n > 100_000_000 {
        FrameSize::Suspicious
    } else if n == 0 || n > 10_000_000 {
        FrameSize::Invalid
    } else {
        FrameSize::Valid(n as usize)
    }
}

/// (API key, API version, correlation id) of a request of `request_size`
/// bytes: read from its first 8 bytes when it has them, else all 0.
pub fn parse_request_metadata(request_buffer: &[u8], request_size: usize) -> (r: (i16, i16, i32))
    requires
        request_size >= 8 ==> request_buffer@.len() >= 8,
    ensures
        r == if request_size >= 8 {
            (read_be_i16(request_buffer@, 0), read_be_i16(request_buffer@, 2), read_be_i32(request_buffer@, 4))
        } else {
            (0i16, 0i16, 0i32)
        },
{
    if request_size >= 8 {
        (be_i16_at(request_buffer, 0), be_i16_at(request_buffer, 2), be_i32_at(request_buffer, 4))
    } else {
        (0, 0, 0)
    }
}

/// The API key of a request, -1 when it has fewer than two bytes.
pub open spec fn api_key_of(request_data: Seq<u8>) -> i16 {
    if request_data.len() >= 2 { read_be_i16(request_data, 0) } else { -1i16 }
}

/// Whether a request waits on the data-plane semaphore: Produce (0) and
/// Fetch (1) do; everything else, malformed requests included, waits on
/// the control-plane one.
pub fn uses_data_plane(request_data: &[u8]) -> (r: bool)
    ensures
        r == (api_key_of(request_data@) == 0 || api_key_of(request_data@) == 1),
{
    let api_key: i16 = if request_data.len() >= 2 { be_i16_at(request_data, 0) } else { -1 };
    api_key == 0 || api_key == 1
}

/// (API key, API version) of a request for an error reply: from its first
/// four bytes, or (0, 0) when it is shorter.
pub open spec fn reply_header_of(request_data: Seq<u8>) -> (i16, i16) {
    if request_data.len() >= 4 {
        (read_be_i16(request_data, 0), read_be_i16(request_data, 2))
    } else {
        (0i16, 0i16)
    }
}

/// The error reply to a failed request: an error response for the
/// request's API and version, under its correlation id.
pub fn error_reply(handler: &ErrorHandler, error_code: ErrorCode, correlation_id: i32, request_data: &[u8]) -> (r: Vec<u8>)
    ensures
        r@ == error_response(error_code, correlation_id, reply_header_of(request_data@).0, reply_header_of(request_data@).1),
{
    let (api_key, api_version): (i16, i16) = if request_data.len() >= 4 {
        (be_i16_at(request_data, 0), be_i16_at(request_data, 2))
    } else {
        (0, 0)
    };
    handler.build_error_response(error_code, correlation_id, api_key, api_version)
}

/// Data-plane requests (Produce, Fetch) admitted at once.
pub const MAX_PRODUCE_REQUESTS: usize = 1000;
/// Control-plane requests admitted at once.
pub const MAX_CONTROL_REQUESTS: usize = 100;

/// The API key of ApiVersions, whose flexible responses carry no tagged
/// fields in their header.
pub const API_VERSIONS_KEY: i16 = 18;

/// Whether a response header ends with an empty tagged-field section: for
/// flexible versions of every API but ApiVersions.
pub open spec fn header_tagged(is_flexible: bool, api_key: i16) -> bool {
    is_flexible && api_key != API_VERSIONS_KEY
}

/// A response on the wire: the size of what follows (as an `i32`), the
/// correlation id, an empty tagged-field byte where `header_tagged` says,
/// then the body.
pub open spec fn response_frame(correlation_id: i32, is_flexible: bool, api_key: i16, body: Seq<u8>) -> Seq<u8> {
    let header = be_i32(correlation_id) + if header_tagged(is_flexible, api_key) { seq![0u8] } else { Seq::empty() };
    be_i32((header.len() + body.len()) as i32) + header + body
}

/// Frames a response body for the wire (see `response_frame`).
pub fn build_response_frame(correlation_id: i32, is_flexible: bool, api_key: i16, body: &[u8]) -> (r: Vec<u8>)
    requires
        body@.len() + 9 <= usize::MAX,
    ensures
        r@ == response_frame(correlation_id, is_flexible, api_key, body@),
{
    let mut header: Vec<u8> = Vec::new();
    push_be_i32(&mut header, correlation_id);
    if is_flexible && api_key != API_VERSIONS_KEY {
        header.push(0);
    }
    let ghost h = header@;
    assert(h =~= be_i32(correlation_id) + if header_tagged(is_flexible, api_key) { seq![0u8] } else { Seq::<u8>::empty() });
    let size = (header.len() + body.len()) as i32;
    let mut full: Vec<u8> = Vec::new();
    push_be_i32(&mut full, size);
    let ghost sized = full@;
    full.extend_from_slice(header.as_slice());
    assert(full@ =~= sized + h);
    let ghost with_header = full@;
    full.extend_from_slice(body);
    assert(full@ =~= with_header + body@);
    full
}

/// A request forwarded to another broker: its size as an `i32`, then its
/// bytes.
pub fn frame_forwarded_request(request_bytes: &[u8]) -> (r: Vec<u8>)
    ensures
        r@ == be_i32(request_bytes@.len() as i32) + request_bytes@,
{
    let mut frame: Vec<u8> = Vec::new();
    push_be_i32(&mut frame, request_bytes.len() as i32);
    let ghost head = frame@;
    frame.extend_from_slice(request_bytes);
    assert(frame@ =~= head + request_bytes@);
    frame
}

/// The correlation id and body of a response another broker sent back,
/// `None` when it is shorter than a correlation id.
pub fn split_forwarded_response(response_data: &[u8]) -> (r: Option<(i32, Vec<u8>)>)
    ensures
        response_data@.len() < 4 ==> r is None,
        response_data@.len() >= 4 ==> (r matches Some((cid, body))
            && cid == read_be_i32(response_data@, 0)
            && body@ == response_data@.subrange(4, response_data@.len() as int)),
{
    if response_data.len() < 4 {
        return None;
    }
    let correlation_id = be_i32_at(response_data, 0);
    let mut body: Vec<u8> = Vec::new();
    body.extend_from_slice(&response_data[4..response_data.len()]);
    assert(body@ =~= response_data@.subrange(4, response_data@.len() as int));
    Some((correlation_id, body))
}

} // verus!
