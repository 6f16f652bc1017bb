//! A fetched record.
use vstd::prelude::*;

verus! {

/// One record: its absolute offset, timestamp, key, value and headers (each
/// header name once).
#[derive(Debug)]
pub struct Record {
    pub offset: i64,
    pub timestamp: i64,
    pub key: Option<Vec<u8>>,
    pub value: Vec<u8>,
    pub headers: Vec<(String, Vec<u8>)>,
}

/// A header as plain values.
pub open spec fn header_view(h: (String, Vec<u8>)) -> (Seq<char>, Seq<u8>) {
    (h.0@, h.1@)
}

/// A key as plain values.
pub open spec fn key_view(k: Option<Vec<u8>>) -> Option<Seq<u8>> {
    match k {
        Some(v) => Some(v@),
        None => None,
    }
}

/// A record as plain values.
pub open spec fn record_view(r: Record) -> (i64, i64, Option<Seq<u8>>, Seq<u8>, Seq<(Seq<char>, Seq<u8>)>) {
    (r.offset, r.timestamp, key_view(r.key), r.value@, r.headers@.map_values(|h: (String, Vec<u8>)| header_view(h)))
}

/// Records as plain values.
pub open spec fn records_view(rs: Seq<Record>) -> Seq<(i64, i64, Option<Seq<u8>>, Seq<u8>, Seq<(Seq<char>, Seq<u8>)>)> {
    rs.map_values(|r: Record| record_view(r))
}

} // verus!
