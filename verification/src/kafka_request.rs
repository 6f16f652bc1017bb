//! Reading Kafka request bodies: the primitive encodings (big-endian
//! integers, unsigned varints, strings and compact strings, tagged-field
//! sections) and the request layouts the broker parses itself (ListOffsets,
//! the topic list of Metadata, and the first topic of CreateTopics).
//!
//! A string is a length (`i16`, or for compact strings an unsigned varint
//! holding the length plus one) followed by that many UTF-8 bytes; a
//! negative length (compact: 0) is a null string. An unsigned varint has at
//! most five 7-bit groups, least significant first.
use vstd::prelude::*;
use vstd::utf8::{decode_utf8, valid_utf8};
use crate::wire::{be_i16_at, be_i32_at, be_i64_at, read_be_i16, read_be_i32, read_be_i64};
use crate::consumer_group::assignment::string_from_utf8;

verus! {

/// Why a request body could not be read.
#[derive(Clone, Copy, Debug, PartialEq, Eq, Structural)]
pub enum ProtocolError {
    /// The body ended inside a field.
    Truncated,
    /// An unsigned varint ran past five groups.
    VarintTooLong,
    /// A string's bytes are not UTF-8.
    InvalidUtf8,
    /// A topic name was null.
    NullTopicName,
    /// An array count below 0 or above 10,000.
    InvalidCount(i32),
}

/// What reading a field from a position gives.
pub enum Scan<T> {
    /// The field and where the next one starts.
    Value(T, int),
    Fail(ProtocolError),
    /// The reading panics (an arithmetic overflow).
    Panic,
}

/// Whether an exec result is what a scan gives.
pub open spec fn scan_result<T>(r: Result<(T, usize), ProtocolError>, s: Scan<T>) -> bool {
    match s {
        Scan::Value(v, q) => r matches Ok((v2, q2)) && v2 == v && q2 == q,
        Scan::Fail(e) => r matches Err(e2) && e2 == e,
        Scan::Panic => false,
    }
}

/// The unsigned varint whose groups start at `p`, `i` groups read so far
/// into `acc`.
pub open spec fn uvarint_from(b: Seq<u8>, p: int, i: nat, acc: u32) -> Scan<u32>
    decreases 5 - i,
{
    if i >= 5 {
        Scan::Fail(ProtocolError::VarintTooLong)
    } else if p < 0 || p + i >= b.len() {
        Scan::Fail(ProtocolError::Truncated)
    } else {
        let byte = b[p + i];
        let next = acc | (((byte & 0x7fu8) as u32) << ((7 * i) as u32));
        if byte & 0x80u8 == 0 {
            Scan::Value(next, p + i + 1)
        } else {
            uvarint_from(b, p, i + 1, next)
        }
    }
}

/// The unsigned varint at `p`.
pub open spec fn uvarint_at(b: Seq<u8>, p: int) -> Scan<u32> {
    uvarint_from(b, p, 0, 0)
}

/// Reads the unsigned varint at `pos`.
pub fn read_unsigned_varint(b: &[u8], pos: usize) -> (r: Result<(u32, usize), ProtocolError>)
    ensures
        scan_result(r, uvarint_at(b@, pos as int)),
        r matches Ok((_, q)) ==> q <= b@.len(),
{
    let mut acc: u32 = 0;
    let mut i: usize = 0;
    while i < 5
        invariant
            i <= 5,
            uvarint_from(b@, pos as int, i as nat, acc) == uvarint_at(b@, pos as int),
        decreases 5 - i,
    {
        if pos >= b.len() || i >= b.len() - pos {
            return Err(ProtocolError::Truncated);
        }
        let byte = b[pos + i];
        let shift = (7 * i) as u32;
        acc = acc | (((byte & 0x7f) as u32) << shift);
        if byte & 0x80 == 0 {
            return Ok((acc, pos + i + 1));
        }
        i += 1;
    }
    Err(ProtocolError::VarintTooLong)
}

/// The `i8` at `p`.
pub open spec fn i8_at(b: Seq<u8>, p: int) -> Scan<i8> {
    if 0 <= p && p + 1 <= b.len() { Scan::Value(b[p] as i8, p + 1) } else { Scan::Fail(ProtocolError::Truncated) }
}

/// The big-endian `i16` at `p`.
pub open spec fn i16_at(b: Seq<u8>, p: int) -> Scan<i16> {
    if 0 <= p && p + 2 <= b.len() { Scan::Value(read_be_i16(b, p), p + 2) } else { Scan::Fail(ProtocolError::Truncated) }
}

/// The big-endian `i32` at `p`.
pub open spec fn i32_at(b: Seq<u8>, p: int) -> Scan<i32> {
    if 0 <= p && p + 4 <= b.len() { Scan::Value(read_be_i32(b, p), p + 4) } else { Scan::Fail(ProtocolError::Truncated) }
}

/// The big-endian `i64` at `p`.
pub open spec fn i64_at(b: Seq<u8>, p: int) -> Scan<i64> {
    if 0 <= p && p + 8 <= b.len() { Scan::Value(read_be_i64(b, p), p + 8) } else { Scan::Fail(ProtocolError::Truncated) }
}

/// Reads the `i8` at `pos`.
pub fn read_i8(b: &[u8], pos: usize) -> (r: Result<(i8, usize), ProtocolError>)
    ensures
        scan_result(r, i8_at(b@, pos as int)),
{
    if pos >= b.len() {
        return Err(ProtocolError::Truncated);
    }
    Ok((b[pos] as i8, pos + 1))
}

/// Reads the big-endian `i16` at `pos`.
pub fn read_i16(b: &[u8], pos: usize) -> (r: Result<(i16, usize), ProtocolError>)
    ensures
        scan_result(r, i16_at(b@, pos as int)),
{
    if pos >= b.len() || b.len() - pos < 2 {
        return Err(ProtocolError::Truncated);
    }
    Ok((be_i16_at(b, pos), pos + 2))
}

/// Reads the big-endian `i32` at `pos`.
pub fn read_i32(b: &[u8], pos: usize) -> (r: Result<(i32, usize), ProtocolError>)
    ensures
        scan_result(r, i32_at(b@, pos as int)),
{
    if pos >= b.len() || b.len() - pos < 4 {
        return Err(ProtocolError::Truncated);
    }
    Ok((be_i32_at(b, pos), pos + 4))
}

/// Reads the big-endian `i64` at `pos`.
pub fn read_i64(b: &[u8], pos: usize) -> (r: Result<(i64, usize), ProtocolError>)
    ensures
        scan_result(r, i64_at(b@, pos as int)),
{
    if pos >= b.len() || b.len() - pos < 8 {
        return Err(ProtocolError::Truncated);
    }
    Ok((be_i64_at(b, pos), pos + 8))
}

/// The text of `len` bytes from `q`, or why it cannot be read.
pub open spec fn text_at(b: Seq<u8>, q: int, len: int) -> Scan<Option<Seq<char>>> {
    if q + len > b.len() {
        Scan::Fail(ProtocolError::Truncated)
    } else if valid_utf8(b.subrange(q, q + len)) {
        Scan::Value(Some(decode_utf8(b.subrange(q, q + len))), q + len)
    } else {
        Scan::Fail(ProtocolError::InvalidUtf8)
    }
}

/// The string (`i16` length) at `p`: null for a negative length.
pub open spec fn string_at(b: Seq<u8>, p: int) -> Scan<Option<Seq<char>>> {
    match i16_at(b, p) {
        Scan::Value(len, q) => if len < 0 { Scan::Value(None, q) } else { text_at(b, q, len as int) },
        Scan::Fail(e) => Scan::Fail(e),
        Scan::Panic => Scan::Panic,
    }
}

/// The compact string (unsigned varint length plus one) at `p`: null for 0.
pub open spec fn compact_string_at(b: Seq<u8>, p: int) -> Scan<Option<Seq<char>>> {
    match uvarint_at(b, p) {
        Scan::Value(n, q) => if n == 0 { Scan::Value(None, q) } else { text_at(b, q, n - 1) },
        Scan::Fail(e) => Scan::Fail(e),
        Scan::Panic => Scan::Panic,
    }
}

/// An optional string as plain values.
pub open spec fn opt_string(o: Option<String>) -> Option<Seq<char>> {
    match o {
        Some(s) => Some(s@),
        None => None,
    }
}

/// Whether an exec result is what a string scan gives.
pub open spec fn string_result(r: Result<(Option<String>, usize), ProtocolError>, s: Scan<Option<Seq<char>>>) -> bool {
    match s {
        Scan::Value(v, q) => r matches Ok((o, q2)) && opt_string(o) == v && q2 == q,
        Scan::Fail(e) => r matches Err(e2) && e2 == e,
        Scan::Panic => false,
    }
}

fn read_text(b: &[u8], q: usize, len: usize) -> (r: Result<(Option<String>, usize), ProtocolError>)
    requires
        q <= b@.len(),
    ensures
        string_result(r, text_at(b@, q as int, len as int)),
{
    if len > b.len() - q {
        return Err(ProtocolError::Truncated);
    }
    let end = q + len;
    let mut bytes: Vec<u8> = Vec::new();
    bytes.extend_from_slice(&b[q..end]);
    assert(bytes@ =~= b@.subrange(q as int, end as int));
    match string_from_utf8(bytes) {
        Some(text) => Ok((Some(text), end)),
        None => Err(ProtocolError::InvalidUtf8),
    }
}

/// Reads the string at `pos` (see `string_at`).
pub fn read_string(b: &[u8], pos: usize) -> (r: Result<(Option<String>, usize), ProtocolError>)
    ensures
        string_result(r, string_at(b@, pos as int)),
{
    match read_i16(b, pos) {
        Ok((len, q)) => if len < 0 { Ok((None, q)) } else { read_text(b, q, len as usize) },
        Err(e) => Err(e),
    }
}

/// Reads the compact string at `pos` (see `compact_string_at`).
pub fn read_compact_string(b: &[u8], pos: usize) -> (r: Result<(Option<String>, usize), ProtocolError>)
    ensures
        string_result(r, compact_string_at(b@, pos as int)),
{
    match read_unsigned_varint(b, pos) {
        Ok((n, q)) => if n == 0 { Ok((None, q)) } else { read_text(b, q, (n - 1) as usize) },
        Err(e) => Err(e),
    }
}

/// Steps over `n` tagged fields from `p` (each a tag and a size, both
/// unsigned varints, then that many bytes).
pub open spec fn skip_tagged_from(b: Seq<u8>, p: int, n: int) -> Scan<()>
    decreases n,
{
    if n <= 0 {
        Scan::Value((), p)
    } else {
        match uvarint_at(b, p) {
            Scan::Value(_tag, q1) => match uvarint_at(b, q1) {
                Scan::Value(size, q2) => if q2 + size > b.len() {
                    Scan::Fail(ProtocolError::Truncated)
                } else {
                    skip_tagged_from(b, q2 + size, n - 1)
                },
                Scan::Fail(e) => Scan::Fail(e),
                Scan::Panic => Scan::Panic,
            },
            Scan::Fail(e) => Scan::Fail(e),
            Scan::Panic => Scan::Panic,
        }
    }
}

/// The tagged-field section at `p`: a count, then that many fields.
pub open spec fn tagged_fields_at(b: Seq<u8>, p: int) -> Scan<()> {
    match uvarint_at(b, p) {
        Scan::Value(n, q) => skip_tagged_from(b, q, n as int),
        Scan::Fail(e) => Scan::Fail(e),
        Scan::Panic => Scan::Panic,
    }
}

/// Whether an exec result is where a scan of nothing-to-keep ends.
pub open spec fn skip_result(r: Result<usize, ProtocolError>, s: Scan<()>) -> bool {
    match s {
        Scan::Value(_, q) => r matches Ok(q2) && q2 == q,
        Scan::Fail(e) => r matches Err(e2) && e2 == e,
        Scan::Panic => false,
    }
}

/// Steps over the tagged-field section at `pos`.
pub fn skip_tagged_fields(b: &[u8], pos: usize) -> (r: Result<usize, ProtocolError>)
    ensures
        skip_result(r, tagged_fields_at(b@, pos as int)),
        r matches Ok(q) ==> q <= b@.len(),
{
    let (count, mut p) = match read_unsigned_varint(b, pos) {
        Ok(x) => x,
        Err(e) => return Err(e),
    };
    let mut k: u32 = 0;
    while k < count
        invariant
            k <= count,
            p <= b@.len(),
            skip_tagged_from(b@, p as int, (count - k) as int) == tagged_fields_at(b@, pos as int),
        decreases count - k,
    {
        let q1 = match read_unsigned_varint(b, p) {
            Ok((_tag, q1)) => q1,
            Err(e) => return Err(e),
        };
        let (size, q2) = match read_unsigned_varint(b, q1) {
            Ok(x) => x,
            Err(e) => return Err(e),
        };
        if size as usize > b.len() - q2 {
            return Err(ProtocolError::Truncated);
        }
        p = q2 + size as usize;
        k += 1;
    }
    Ok(p)
}

/// An array count at `p`: an `i32`, or in flexible versions an unsigned
/// varint holding the count plus one (0 also reads as 0). Reading the
/// varint's value as an `i32` and taking one off overflows for 2^31.
pub open spec fn count_at(b: Seq<u8>, p: int, flexible: bool) -> Scan<i32> {
    if flexible {
        match uvarint_at(b, p) {
            Scan::Value(n, q) => {
                let c = n as i32;
                if c == 0 { Scan::Value(0, q) } else if c == i32::MIN { Scan::Panic } else { Scan::Value((c - 1) as i32, q) }
            },
            Scan::Fail(e) => Scan::Fail(e),
            Scan::Panic => Scan::Panic,
        }
    } else {
        i32_at(b, p)
    }
}

/// The array count at `p`, refused when below 0 or above 10,000.
pub open spec fn checked_count_at(b: Seq<u8>, p: int, flexible: bool) -> Scan<i32> {
    match count_at(b, p, flexible) {
        Scan::Value(c, q) => if c < 0 || c > 10000 { Scan::Fail(ProtocolError::InvalidCount(c)) } else { Scan::Value(c, q) },
        Scan::Fail(e) => Scan::Fail(e),
        Scan::Panic => Scan::Panic,
    }
}

fn read_checked_count(b: &[u8], pos: usize, flexible: bool) -> (r: Result<(i32, usize), ProtocolError>)
    requires
        !(checked_count_at(b@, pos as int, flexible) is Panic),
    ensures
        scan_result(r, checked_count_at(b@, pos as int, flexible)),
        r matches Ok((_, q)) ==> q <= b@.len(),
{
    let (count, q) = if flexible {
        match read_unsigned_varint(b, pos) {
            Ok((n, q)) => {
                let c = n as i32;
                if c == 0 { (0i32, q) } else { (c - 1, q) }
            },
            Err(e) => return Err(e),
        }
    } else {
        match read_i32(b, pos) {
            Ok(x) => x,
            Err(e) => return Err(e),
        }
    };
    if count < 0 || count > 10000 {
        Err(ProtocolError::InvalidCount(count))
    } else {
        Ok((count, q))
    }
}

/// A partition of a ListOffsets request.
#[derive(Clone, Copy, Debug, PartialEq, Eq, Structural)]
pub struct ListOffsetsRequestPartition {
    pub partition_index: i32,
    /// -1 before version 4.
    pub current_leader_epoch: i32,
    pub timestamp: i64,
}

/// A partition as plain values: index, current leader epoch, timestamp.
pub type PartitionView = (i32, i32, i64);

/// A partition as plain values.
pub open spec fn partition_view(p: ListOffsetsRequestPartition) -> PartitionView {
    (p.partition_index, p.current_leader_epoch, p.timestamp)
}

/// What follows a field in flexible versions: a tagged-field section.
pub open spec fn then_tagged<T>(b: Seq<u8>, s: Scan<T>, flexible: bool) -> Scan<T> {
    match s {
        Scan::Value(v, q) => if flexible {
            match tagged_fields_at(b, q) {
                Scan::Value(_, q2) => Scan::Value(v, q2),
                Scan::Fail(e) => Scan::Fail(e),
                Scan::Panic => Scan::Panic,
            }
        } else {
            Scan::Value(v, q)
        },
        Scan::Fail(e) => Scan::Fail(e),
        Scan::Panic => Scan::Panic,
    }
}

/// The fields of a partition after its index at `p`: in version 0 a
/// timestamp and a maximum number of offsets (unused; no leader epoch);
/// from version 1 a current leader epoch (from version 4 on) and a
/// timestamp.
pub open spec fn partition_fields_at(b: Seq<u8>, p: int, index: i32, api_version: i16) -> Scan<PartitionView> {
    if api_version == 0 {
        match i64_at(b, p) {
            Scan::Value(ts, q) => match i32_at(b, q) {
                Scan::Value(_max, q2) => Scan::Value((index, -1i32, ts), q2),
                Scan::Fail(e) => Scan::Fail(e),
                Scan::Panic => Scan::Panic,
            },
            Scan::Fail(e) => Scan::Fail(e),
            Scan::Panic => Scan::Panic,
        }
    } else {
        let epoch = if api_version >= 4 { i32_at(b, p) } else { Scan::Value(-1i32, p) };
        match epoch {
            Scan::Value(e, q) => match i64_at(b, q) {
                Scan::Value(ts, q2) => Scan::Value((index, e, ts), q2),
                Scan::Fail(err) => Scan::Fail(err),
                Scan::Panic => Scan::Panic,
            },
            Scan::Fail(err) => Scan::Fail(err),
            Scan::Panic => Scan::Panic,
        }
    }
}

/// The partition at `p`: index, version-dependent fields, then in
/// flexible versions a tagged-field section.
pub open spec fn partition_at(b: Seq<u8>, p: int, flexible: bool, api_version: i16) -> Scan<PartitionView> {
    match i32_at(b, p) {
        Scan::Value(index, q) => then_tagged(b, partition_fields_at(b, q, index, api_version), flexible),
        Scan::Fail(e) => Scan::Fail(e),
        Scan::Panic => Scan::Panic,
    }
}

/// Reads the partition at `pos` (see `partition_at`).
pub fn parse_single_list_offsets_partition(b: &[u8], pos: usize, is_flexible: bool, api_version: i16)
    -> (r: Result<(ListOffsetsRequestPartition, usize), ProtocolError>)
    ensures
        match partition_at(b@, pos as int, is_flexible, api_version) {
            Scan::Value(v, q) => r matches Ok((x, q2)) && partition_view(x) == v && q2 == q,
            Scan::Fail(e) => r matches Err(e2) && e2 == e,
            Scan::Panic => false,
        },
        r matches Ok((_, q)) ==> q <= b@.len(),
{
    let (partition_index, p1) = match read_i32(b, pos) {
        Ok(x) => x,
        Err(e) => return Err(e),
    };
    let (current_leader_epoch, timestamp, p2) = if api_version == 0 {
        let (timestamp, q) = match read_i64(b, p1) {
            Ok(x) => x,
            Err(e) => return Err(e),
        };
        let q2 = match read_i32(b, q) {
            Ok((_max_offsets, q2)) => q2,
            Err(e) => return Err(e),
        };
        (-1i32, timestamp, q2)
    } else {
        let (epoch, q) = if api_version >= 4 {
            match read_i32(b, p1) {
                Ok(x) => x,
                Err(e) => return Err(e),
            }
        } else {
            (-1i32, p1)
        };
        let (timestamp, q2) = match read_i64(b, q) {
            Ok(x) => x,
            Err(e) => return Err(e),
        };
        (epoch, timestamp, q2)
    };
    let p3 = if is_flexible {
        match skip_tagged_fields(b, p2) {
            Ok(q) => q,
            Err(e) => return Err(e),
        }
    } else {
        p2
    };
    Ok((ListOffsetsRequestPartition { partition_index, current_leader_epoch, timestamp }, p3))
}

/// `n` partitions from `p`, after those read into `acc`.
pub open spec fn partitions_from(b: Seq<u8>, p: int, n: int, flexible: bool, api_version: i16, acc: Seq<PartitionView>) -> Scan<Seq<PartitionView>>
    decreases n,
{
    if n <= 0 {
        Scan::Value(acc, p)
    } else {
        match partition_at(b, p, flexible, api_version) {
            Scan::Value(x, q) => partitions_from(b, q, n - 1, flexible, api_version, acc.push(x)),
            Scan::Fail(e) => Scan::Fail(e),
            Scan::Panic => Scan::Panic,
        }
    }
}

/// The partitions array at `p`: a checked count, then that many
/// partitions.
pub open spec fn partitions_at(b: Seq<u8>, p: int, flexible: bool, api_version: i16) -> Scan<Seq<PartitionView>> {
    match checked_count_at(b, p, flexible) {
        Scan::Value(n, q) => partitions_from(b, q, n as int, flexible, api_version, Seq::empty()),
        Scan::Fail(e) => Scan::Fail(e),
        Scan::Panic => Scan::Panic,
    }
}

/// Partitions as plain values.
pub open spec fn partitions_view(ps: Seq<ListOffsetsRequestPartition>) -> Seq<PartitionView> {
    ps.map_values(|x: ListOffsetsRequestPartition| partition_view(x))
}

/// Reads the partitions array at `pos` (see `partitions_at`).
pub fn parse_list_offsets_partitions(b: &[u8], pos: usize, is_flexible: bool, api_version: i16)
    -> (r: Result<(Vec<ListOffsetsRequestPartition>, usize), ProtocolError>)
    requires
        !(checked_count_at(b@, pos as int, is_flexible) is Panic),
    ensures
        match partitions_at(b@, pos as int, is_flexible, api_version) {
            Scan::Value(v, q) => r matches Ok((x, q2)) && partitions_view(x@) == v && q2 == q,
            Scan::Fail(e) => r matches Err(e2) && e2 == e,
            Scan::Panic => false,
        },
        r matches Ok((_, q)) ==> q <= b@.len(),
{
    let (count, mut p) = match read_checked_count(b, pos, is_flexible) {
        Ok(x) => x,
        Err(e) => return Err(e),
    };
    let ghost goal = partitions_at(b@, pos as int, is_flexible, api_version);
    let mut partitions: Vec<ListOffsetsRequestPartition> = Vec::new();
    let mut k: i32 = 0;
    assert(partitions_view(partitions@) =~= Seq::<PartitionView>::empty());
    while k < count
        invariant
            0 <= k <= count,
            p <= b@.len(),
            goal == partitions_at(b@, pos as int, is_flexible, api_version),
            partitions_from(b@, p as int, (count - k) as int, is_flexible, api_version, partitions_view(partitions@)) == goal,
        decreases count - k,
    {
        let (x, q) = match parse_single_list_offsets_partition(b, p, is_flexible, api_version) {
            Ok(y) => y,
            Err(e) => {
                assert(partition_at(b@, p as int, is_flexible, api_version) == Scan::<PartitionView>::Fail(e));
                return Err(e);
            },
        };
        let ghost before = partitions_view(partitions@);
        partitions.push(x);
        assert(partitions_view(partitions@) =~= before.push(partition_view(x)));
        p = q;
        k += 1;
    }
    Ok((partitions, p))
}

/// A topic of a ListOffsets request.
#[derive(Clone, Debug)]
pub struct ListOffsetsRequestTopic {
    pub name: String,
    pub partitions: Vec<ListOffsetsRequestPartition>,
}

/// A topic as plain values: name and partitions.
pub type TopicView = (Seq<char>, Seq<PartitionView>);

/// A topic as plain values.
pub open spec fn topic_view(t: ListOffsetsRequestTopic) -> TopicView {
    (t.name@, partitions_view(t.partitions@))
}

/// The topic at `p`: its name (a compact string in flexible versions;
/// null is refused), its partitions, then in flexible versions a
/// tagged-field section.
#[verifier::opaque]
pub open spec fn topic_at(b: Seq<u8>, p: int, flexible: bool, api_version: i16) -> Scan<TopicView> {
    let name = if flexible { compact_string_at(b, p) } else { string_at(b, p) };
    match name {
        Scan::Value(None, _) => Scan::Fail(ProtocolError::NullTopicName),
        Scan::Value(Some(n), q) => then_tagged(b, match partitions_at(b, q, flexible, api_version) {
            Scan::Value(ps, q2) => Scan::Value((n, ps), q2),
            Scan::Fail(e) => Scan::Fail(e),
            Scan::Panic => Scan::Panic,
        }, flexible),
        Scan::Fail(e) => Scan::Fail(e),
        Scan::Panic => Scan::Panic,
    }
}

/// Reads the topic at `pos` (see `topic_at`).
pub fn parse_single_list_offsets_topic(b: &[u8], pos: usize, is_flexible: bool, api_version: i16)
    -> (r: Result<(ListOffsetsRequestTopic, usize), ProtocolError>)
    requires
        !(topic_at(b@, pos as int, is_flexible, api_version) is Panic),
    ensures
        match topic_at(b@, pos as int, is_flexible, api_version) {
            Scan::Value(v, q) => r matches Ok((x, q2)) && topic_view(x) == v && q2 == q,
            Scan::Fail(e) => r matches Err(e2) && e2 == e,
            Scan::Panic => false,
        },
        r matches Ok((_, q)) ==> q <= b@.len(),
{
    reveal(topic_at);
    let name_read = if is_flexible { read_compact_string(b, pos) } else { read_string(b, pos) };
    let (name, q) = match name_read {
        Ok((Some(n), q)) => (n, q),
        Ok((None, _)) => return Err(ProtocolError::NullTopicName),
        Err(e) => return Err(e),
    };
    let (partitions, q2) = match parse_list_offsets_partitions(b, q, is_flexible, api_version) {
        Ok(x) => x,
        Err(e) => return Err(e),
    };
    let q3 = if is_flexible {
        match skip_tagged_fields(b, q2) {
            Ok(q3) => q3,
            Err(e) => return Err(e),
        }
    } else {
        q2
    };
    Ok((ListOffsetsRequestTopic { name, partitions }, q3))
}

/// `n` topics from `p`, after those read into `acc`.
pub open spec fn topics_from(b: Seq<u8>, p: int, n: int, flexible: bool, api_version: i16, acc: Seq<TopicView>) -> Scan<Seq<TopicView>>
    decreases n,
{
    if n <= 0 {
        Scan::Value(acc, p)
    } else {
        match topic_at(b, p, flexible, api_version) {
            Scan::Value(x, q) => topics_from(b, q, n - 1, flexible, api_version, acc.push(x)),
            Scan::Fail(e) => Scan::Fail(e),
            Scan::Panic => Scan::Panic,
        }
    }
}

/// The topics array at `p`: a checked count, that many topics, then in
/// flexible versions the request's tagged-field section.
pub open spec fn topics_at(b: Seq<u8>, p: int, flexible: bool, api_version: i16) -> Scan<Seq<TopicView>> {
    match checked_count_at(b, p, flexible) {
        Scan::Value(n, q) => then_tagged(b, topics_from(b, q, n as int, flexible, api_version, Seq::empty()), flexible),
        Scan::Fail(e) => Scan::Fail(e),
        Scan::Panic => Scan::Panic,
    }
}

/// Topics as plain values.
pub open spec fn topics_view(ts: Seq<ListOffsetsRequestTopic>) -> Seq<TopicView> {
    ts.map_values(|t: ListOffsetsRequestTopic| topic_view(t))
}

/// Reads the topics array at `pos` (see `topics_at`).
pub fn parse_list_offsets_topics(b: &[u8], pos: usize, is_flexible: bool, api_version: i16)
    -> (r: Result<(Vec<ListOffsetsRequestTopic>, usize), ProtocolError>)
    requires
        !(topics_at(b@, pos as int, is_flexible, api_version) is Panic),
    ensures
        match topics_at(b@, pos as int, is_flexible, api_version) {
            Scan::Value(v, q) => r matches Ok((x, q2)) && topics_view(x@) == v && q2 == q,
            Scan::Fail(e) => r matches Err(e2) && e2 == e,
            Scan::Panic => false,
        },
        r matches Ok((_, q)) ==> q <= b@.len(),
{
    let (count, mut p) = match read_checked_count(b, pos, is_flexible) {
        Ok(x) => x,
        Err(e) => return Err(e),
    };
    let ghost all = topics_from(b@, p as int, count as int, is_flexible, api_version, Seq::empty());
    let ghost whole = topics_at(b@, pos as int, is_flexible, api_version);
    assert(whole == then_tagged(b@, all, is_flexible));
    let mut topics: Vec<ListOffsetsRequestTopic> = Vec::new();
    let mut k: i32 = 0;
    assert(topics_view(topics@) =~= Seq::<TopicView>::empty());
    while k < count
        invariant
            0 <= k <= count,
            p <= b@.len(),
            !(whole is Panic),
            whole == topics_at(b@, pos as int, is_flexible, api_version),
            whole == then_tagged(b@, all, is_flexible),
            topics_from(b@, p as int, (count - k) as int, is_flexible, api_version, topics_view(topics@)) == all,
        decreases count - k,
    {
        let (x, q) = match parse_single_list_offsets_topic(b, p, is_flexible, api_version) {
            Ok(y) => y,
            Err(e) => {
                assert(topic_at(b@, p as int, is_flexible, api_version) == Scan::<TopicView>::Fail(e));
                return Err(e);
            },
        };
        let ghost before = topics_view(topics@);
        topics.push(x);
        assert(topics_view(topics@) =~= before.push(topic_view(x)));
        p = q;
        k += 1;
    }
    let p2 = if is_flexible {
        match skip_tagged_fields(b, p) {
            Ok(q) => q,
            Err(e) => return Err(e),
        }
    } else {
        p
    };
    Ok((topics, p2))
}

/// The fields before the topics at `p`: the replica id, then from
/// version 2 the isolation level (0 before).
pub open spec fn list_offsets_header_at(b: Seq<u8>, p: int, api_version: i16) -> Scan<(i32, i8)> {
    match i32_at(b, p) {
        Scan::Value(replica_id, q) => if api_version >= 2 {
            match i8_at(b, q) {
                Scan::Value(level, q2) => Scan::Value((replica_id, level), q2),
                Scan::Fail(e) => Scan::Fail(e),
                Scan::Panic => Scan::Panic,
            }
        } else {
            Scan::Value((replica_id, 0i8), q)
        },
        Scan::Fail(e) => Scan::Fail(e),
        Scan::Panic => Scan::Panic,
    }
}

/// Reads the replica id and isolation level at `pos`.
pub fn parse_list_offsets_header(b: &[u8], pos: usize, api_version: i16) -> (r: Result<((i32, i8), usize), ProtocolError>)
    ensures
        scan_result(r, list_offsets_header_at(b@, pos as int, api_version)),
        r matches Ok((_, q)) ==> q <= b@.len(),
{
    let (replica_id, q) = match read_i32(b, pos) {
        Ok(x) => x,
        Err(e) => return Err(e),
    };
    if api_version >= 2 {
        match read_i8(b, q) {
            Ok((level, q2)) => Ok(((replica_id, level), q2)),
            Err(e) => Err(e),
        }
    } else {
        Ok(((replica_id, 0i8), q))
    }
}

/// A ListOffsets request body.
#[derive(Clone, Debug)]
pub struct ListOffsetsRequest {
    pub replica_id: i32,
    pub isolation_level: i8,
    pub topics: Vec<ListOffsetsRequestTopic>,
}

/// A ListOffsets request body of version `api_version` (flexible from
/// version 6): its header fields, then its topics.
pub open spec fn list_offsets_request(b: Seq<u8>, api_version: i16) -> Scan<(i32, i8, Seq<TopicView>)> {
    match list_offsets_header_at(b, 0, api_version) {
        Scan::Value(h, q) => match topics_at(b, q, api_version >= 6, api_version) {
            Scan::Value(ts, q2) => Scan::Value((h.0, h.1, ts), q2),
            Scan::Fail(e) => Scan::Fail(e),
            Scan::Panic => Scan::Panic,
        },
        Scan::Fail(e) => Scan::Fail(e),
        Scan::Panic => Scan::Panic,
    }
}

/// Reads a ListOffsets request body (see `list_offsets_request`); what
/// follows the topics is not read.
pub fn parse_list_offsets_request(body: &[u8], api_version: i16) -> (r: Result<ListOffsetsRequest, ProtocolError>)
    requires
        !(list_offsets_request(body@, api_version) is Panic),
    ensures
        match list_offsets_request(body@, api_version) {
            Scan::Value(v, _) => r matches Ok(x) && (x.replica_id, x.isolation_level, topics_view(x.topics@)) == v,
            Scan::Fail(e) => r matches Err(e2) && e2 == e,
            Scan::Panic => false,
        },
{
    let ((replica_id, isolation_level), q) = match parse_list_offsets_header(body, 0, api_version) {
        Ok(x) => x,
        Err(e) => return Err(e),
    };
    match parse_list_offsets_topics(body, q, api_version >= 6, api_version) {
        Ok((topics, _)) => Ok(ListOffsetsRequest { replica_id, isolation_level, topics }),
        Err(e) => Err(e),
    }
}

/// The topic count of a Metadata request at `p`: an `i32`, or in flexible
/// versions an unsigned varint holding the count plus one, where 0 stands
/// for a null array (-1). Reading the varint's value as an `i32` and taking
/// one off overflows for 2^31.
pub open spec fn metadata_count_at(b: Seq<u8>, p: int, flexible: bool) -> Scan<i32> {
    if flexible {
        match uvarint_at(b, p) {
            Scan::Value(n, q) => {
                let c = n as i32;
                if c == 0 { Scan::Value(-1i32, q) } else if c == i32::MIN { Scan::Panic } else { Scan::Value((c - 1) as i32, q) }
            },
            Scan::Fail(e) => Scan::Fail(e),
            Scan::Panic => Scan::Panic,
        }
    } else {
        i32_at(b, p)
    }
}

/// `n` requested topics from `p`, after the names read into `names`: each
/// (from version 10) behind a 16-byte topic id, its name (a null name is
/// left out), then in flexible versions a tagged-field section.
pub open spec fn metadata_names_from(b: Seq<u8>, p: int, n: int, flexible: bool, api_version: i16, names: Seq<Seq<char>>) -> Scan<Seq<Seq<char>>>
    decreases n,
{
    if n <= 0 {
        Scan::Value(names, p)
    } else {
        let q0 = if api_version >= 10 { p + 16 } else { p };
        if q0 > b.len() || p < 0 {
            Scan::Fail(ProtocolError::Truncated)
        } else {
            let name = if flexible { compact_string_at(b, q0) } else { string_at(b, q0) };
            match name {
                Scan::Value(o, q1) => {
                    let more = match o {
                        Some(nm) => names.push(nm),
                        None => names,
                    };
                    match then_tagged(b, Scan::Value((), q1), flexible) {
                        Scan::Value(_, q2) => metadata_names_from(b, q2, n - 1, flexible, api_version, more),
                        Scan::Fail(e) => Scan::Fail(e),
                        Scan::Panic => Scan::Panic,
                    }
                },
                Scan::Fail(e) => Scan::Fail(e),
                Scan::Panic => Scan::Panic,
            }
        }
    }
}

/// Some names, as a scan result.
pub open spec fn some_names(s: Scan<Seq<Seq<char>>>) -> Scan<Option<Seq<Seq<char>>>> {
    match s {
        Scan::Value(ns, q) => Scan::Value(Some(ns), q),
        Scan::Fail(e) => Scan::Fail(e),
        Scan::Panic => Scan::Panic,
    }
}

/// The requested topics of a Metadata request: `None` (all topics) before
/// version 1 or for a negative count.
pub open spec fn metadata_topics_at(b: Seq<u8>, api_version: i16) -> Scan<Option<Seq<Seq<char>>>> {
    if api_version >= 1 {
        match metadata_count_at(b, 0, api_version >= 9) {
            Scan::Value(c, q) => if c < 0 {
                Scan::Value(None, q)
            } else {
                some_names(metadata_names_from(b, q, c as int, api_version >= 9, api_version, Seq::empty()))
            },
            Scan::Fail(e) => Scan::Fail(e),
            Scan::Panic => Scan::Panic,
        }
    } else {
        Scan::Value(None, 0)
    }
}

/// The auto-creation flag after the topics: a byte other than 0 from
/// version 4; before it, yes.
pub open spec fn with_allow(b: Seq<u8>, topics: Scan<Option<Seq<Seq<char>>>>, api_version: i16) -> Scan<(Option<Seq<Seq<char>>>, bool)> {
    match topics {
        Scan::Value(t, q) => if api_version >= 4 {
            match i8_at(b, q) {
                Scan::Value(x, q2) => Scan::Value((t, x != 0), q2),
                Scan::Fail(e) => Scan::Fail(e),
                Scan::Panic => Scan::Panic,
            }
        } else {
            Scan::Value((t, true), q)
        },
        Scan::Fail(e) => Scan::Fail(e),
        Scan::Panic => Scan::Panic,
    }
}

/// A Metadata request body of version `api_version` (flexible from version
/// 9): the requested topic names and whether topics may be auto-created.
pub open spec fn metadata_request(b: Seq<u8>, api_version: i16) -> Scan<(Option<Seq<Seq<char>>>, bool)> {
    with_allow(b, metadata_topics_at(b, api_version), api_version)
}

/// Names as plain values.
pub open spec fn names_view(ns: Seq<String>) -> Seq<Seq<char>> {
    ns.map_values(|n: String| n@)
}

/// Optional names as plain values.
pub open spec fn opt_names_view(o: Option<Vec<String>>) -> Option<Seq<Seq<char>>> {
    match o {
        Some(v) => Some(names_view(v@)),
        None => None,
    }
}

/// Reads the requested topics and the auto-creation flag of a Metadata
/// request body (see `metadata_request`); what follows is not read.
pub fn parse_metadata_topics(body: &[u8], api_version: i16) -> (r: Result<(Option<Vec<String>>, bool), ProtocolError>)
    requires
        !(metadata_request(body@, api_version) is Panic),
    ensures
        match metadata_request(body@, api_version) {
            Scan::Value(v, _) => r matches Ok((names, allow)) && opt_names_view(names) == v.0 && allow == v.1,
            Scan::Fail(e) => r matches Err(e2) && e2 == e,
            Scan::Panic => false,
        },
{
    let flexible = api_version >= 9;
    let (topics, p): (Option<Vec<String>>, usize) = if api_version >= 1 {
        let (count, q) = if flexible {
            match read_unsigned_varint(body, 0) {
                Ok((n, q)) => {
                    let c = n as i32;
                    if c == 0 { (-1i32, q) } else { (c - 1, q) }
                },
                Err(e) => return Err(e),
            }
        } else {
            match read_i32(body, 0) {
                Ok(x) => x,
                Err(e) => return Err(e),
            }
        };
        if count < 0 {
            (None, q)
        } else {
            let ghost all = metadata_names_from(body@, q as int, count as int, flexible, api_version, Seq::empty());
            assert(metadata_request(body@, api_version) == with_allow(body@, some_names(all), api_version));
            let mut names: Vec<String> = Vec::new();
            let mut p = q;
            let mut k: i32 = 0;
            assert(names_view(names@) =~= Seq::<Seq<char>>::empty());
            while k < count
                invariant
                    0 <= k <= count,
                    p <= body@.len(),
                    flexible == (api_version >= 9),
                    metadata_names_from(body@, p as int, (count - k) as int, flexible, api_version, names_view(names@)) == all,
                    metadata_request(body@, api_version) == with_allow(body@, some_names(all), api_version),
                    !(metadata_request(body@, api_version) is Panic),
                decreases count - k,
            {
                let q0 = if api_version >= 10 {
                    if body.len() - p < 16 {
                        return Err(ProtocolError::Truncated);
                    }
                    p + 16
                } else {
                    p
                };
                let read = if flexible { read_compact_string(body, q0) } else { read_string(body, q0) };
                let (name, q1) = match read {
                    Ok(x) => x,
                    Err(e) => return Err(e),
                };
                let ghost before = names_view(names@);
                match name {
                    Some(n) => {
                        names.push(n);
                        assert(names_view(names@) =~= before.push(names@.last()@));
                    },
                    None => {},
                }
                let q2 = if flexible {
                    match skip_tagged_fields(body, q1) {
                        Ok(q2) => q2,
                        Err(e) => return Err(e),
                    }
                } else {
                    q1
                };
                p = q2;
                k += 1;
            }
            (Some(names), p)
        }
    } else {
        (None, 0)
    };
    let allow = if api_version >= 4 {
        match read_i8(body, p) {
            Ok((x, _)) => x != 0,
            Err(e) => return Err(e),
        }
    } else {
        true
    };
    Ok((topics, allow))
}

/// The first topic of a CreateTopics request body of version `api_version`
/// (compact encodings from version 5): its name (empty for a null name) and
/// partition count; `None` when the topic count is 0 or negative.
pub open spec fn create_topics_first(b: Seq<u8>, api_version: i16) -> Scan<Option<(Seq<char>, i32)>> {
    let compact = api_version >= 5;
    let count = if compact {
        match uvarint_at(b, 0) {
            Scan::Value(n, q) => Scan::Value(if n > 0 { n - 1 } else { 0 }, q),
            Scan::Fail(e) => Scan::Fail(e),
            Scan::Panic => Scan::Panic,
        }
    } else {
        match i32_at(b, 0) {
            Scan::Value(n, q) => Scan::Value(if n >= 0 { n as int } else { 0 }, q),
            Scan::Fail(e) => Scan::Fail(e),
            Scan::Panic => Scan::Panic,
        }
    };
    match count {
        Scan::Value(n, q) => if n == 0 {
            Scan::Value(None, q)
        } else {
            let name = if compact { compact_string_at(b, q) } else { string_at(b, q) };
            match name {
                Scan::Value(o, q1) => match i32_at(b, q1) {
                    Scan::Value(partitions, q2) => Scan::Value(Some((match o { Some(t) => t, None => Seq::empty() }, partitions)), q2),
                    Scan::Fail(e) => Scan::Fail(e),
                    Scan::Panic => Scan::Panic,
                },
                Scan::Fail(e) => Scan::Fail(e),
                Scan::Panic => Scan::Panic,
            }
        },
        Scan::Fail(e) => Scan::Fail(e),
        Scan::Panic => Scan::Panic,
    }
}

/// Reads the first topic of a CreateTopics request body (see
/// `create_topics_first`).
pub fn parse_first_created_topic(body: &[u8], api_version: i16) -> (r: Result<Option<(String, i32)>, ProtocolError>)
    ensures
        match create_topics_first(body@, api_version) {
            Scan::Value(v, _) => r matches Ok(o) && match (o, v) {
                (Some((name, n)), Some((name_v, n_v))) => name@ == name_v && n == n_v,
                (None, None) => true,
                _ => false,
            },
            Scan::Fail(e) => r matches Err(e2) && e2 == e,
            Scan::Panic => false,
        },
{
    let compact = api_version >= 5;
    let (any, q) = if compact {
        match read_unsigned_varint(body, 0) {
            Ok((n, q)) => (n > 1, q),
            Err(e) => return Err(e),
        }
    } else {
        match read_i32(body, 0) {
            Ok((n, q)) => (n > 0, q),
            Err(e) => return Err(e),
        }
    };
    if !any {
        return Ok(None);
    }
    let read = if compact { read_compact_string(body, q) } else { read_string(body, q) };
    let (name, q1) = match read {
        Ok((Some(t), q1)) => (t, q1),
        Ok((None, q1)) => (String::new(), q1),
        Err(e) => return Err(e),
    };
    match read_i32(body, q1) {
        Ok((partitions, _)) => Ok(Some((name, partitions))),
        Err(e) => Err(e),
    }
}

} // verus!
