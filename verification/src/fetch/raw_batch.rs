//! Reading the records of one v2 record batch straight from its wire bytes,
//! keeping those whose absolute offset lies in a requested range.
//!
//! The batch header is 61 bytes: base offset (i64, at 0), base timestamp
//! (i64, at 27) and record count (i32, at 57) are used. Each record is a
//! length varint, an attributes byte, a timestamp-delta varlong, an
//! offset-delta varint, then key, value (varint length, -1 for none) and
//! headers (varint count of varint-length name and value pairs).
use vstd::prelude::*;
use vstd::utf8::{decode_utf8, valid_utf8};
use bytes::Buf;
use crate::wire::{read_be_i32, read_be_i64};
use crate::text::str_eq;
use crate::consumer_group::group::{key_index, key_insert, lemma_key_index};
use crate::fetch::varint::{FetchError, VarScan, read_varint, read_varlong, scan_var, varint_at, varlong_at, zigzag32, zigzag64};
use vstd::arithmetic::power::pow;
use crate::fetch::record::{Record, header_view, record_view, records_view};

verus! {

/// A record as plain values: offset, timestamp, key, value, headers.
pub type RecordView = (i64, i64, Option<Seq<u8>>, Seq<u8>, Seq<(Seq<char>, Seq<u8>)>);

/// Headers as plain values.
pub type HeadersView = Seq<(Seq<char>, Seq<u8>)>;

/// The text `String::from_utf8_lossy` makes of `bytes`.
pub uninterp spec fn lossy_utf8(bytes: Seq<u8>) -> Seq<char>;

/// Text from bytes, invalid sequences replaced.
///
/// Calls `String::from_utf8_lossy`; claims the result is `lossy_utf8` of the
/// bytes, and, as its documentation says, the decoded text itself when the
/// bytes are valid UTF-8.
#[verifier::external_body]
fn utf8_lossy(bytes: &[u8]) -> (s: String)
    ensures
        s@ == lossy_utf8(bytes@),
        valid_utf8(bytes@) ==> s@ == decode_utf8(bytes@),
{
    String::from_utf8_lossy(bytes).to_string()
}

/// The big-endian `i64` at `pos`.
///
/// Calls `bytes::Buf::get_i64` on the bytes from `pos`; claims it reads the
/// eight bytes there big-endian. It panics on fewer, which `requires` rules
/// out.
#[verifier::external_body]
fn buf_get_i64(b: &[u8], pos: usize) -> (v: i64)
    requires
        pos + 8 <= b@.len(),
    ensures
        v == read_be_i64(b@, pos as int),
{
    let mut cursor = &b[pos..];
    cursor.get_i64()
}

/// The big-endian `i32` at `pos`.
///
/// Calls `bytes::Buf::get_i32` on the bytes from `pos`; claims it reads the
/// four bytes there big-endian. It panics on fewer, which `requires` rules
/// out.
#[verifier::external_body]
fn buf_get_i32(b: &[u8], pos: usize) -> (v: i32)
    requires
        pos + 4 <= b@.len(),
    ensures
        v == read_be_i32(b@, pos as int),
{
    let mut cursor = &b[pos..];
    cursor.get_i32()
}

/// What parsing a part from a position gives.
pub enum Parsed<T> {
    /// The part and where the next one starts.
    Done(T, int),
    /// An error the decoder reports.
    Fail(FetchError),
    /// A read the decoder does not survive: past the end of the bytes, a
    /// negative header length, an overlong varint, an overflowing offset
    /// or timestamp.
    Panic,
}

/// Reads `n` headers from `p` onto `acc`; a later header with a name
/// already read replaces its value.
pub open spec fn parse_headers(b: Seq<u8>, p: int, n: int, acc: HeadersView) -> Parsed<HeadersView>
    decreases n,
{
    if n <= 0 {
        Parsed::Done(acc, p)
    } else {
        match varint_at(b, p) {
            VarScan::Truncated => Parsed::Fail(FetchError::UnexpectedEndOfVarint),
            VarScan::Overlong => Parsed::Panic,
            VarScan::Value(rk, p1) => {
                let kl = zigzag32(rk) as int;
                if kl < 0 || p1 + kl > b.len() {
                    Parsed::Panic
                } else {
                    match varint_at(b, p1 + kl) {
                        VarScan::Truncated => Parsed::Fail(FetchError::UnexpectedEndOfVarint),
                        VarScan::Overlong => Parsed::Panic,
                        VarScan::Value(rv, p2) => {
                            let vl = zigzag32(rv) as int;
                            if vl < 0 || p2 + vl > b.len() {
                                Parsed::Panic
                            } else {
                                parse_headers(
                                    b,
                                    p2 + vl,
                                    n - 1,
                                    key_insert(acc, lossy_utf8(b.subrange(p1, p1 + kl)), b.subrange(p2, p2 + vl)),
                                )
                            }
                        },
                    }
                }
            },
        }
    }
}

/// Steps over `n` headers from `p`.
pub open spec fn skip_headers(b: Seq<u8>, p: int, n: int) -> Parsed<()>
    decreases n,
{
    if n <= 0 {
        Parsed::Done((), p)
    } else {
        match varint_at(b, p) {
            VarScan::Truncated => Parsed::Fail(FetchError::UnexpectedEndOfVarint),
            VarScan::Overlong => Parsed::Panic,
            VarScan::Value(rk, p1) => {
                let kl = zigzag32(rk) as int;
                if kl < 0 || p1 + kl > b.len() {
                    Parsed::Panic
                } else {
                    match varint_at(b, p1 + kl) {
                        VarScan::Truncated => Parsed::Fail(FetchError::UnexpectedEndOfVarint),
                        VarScan::Overlong => Parsed::Panic,
                        VarScan::Value(rv, p2) => {
                            let vl = zigzag32(rv) as int;
                            if vl < 0 || p2 + vl > b.len() {
                                Parsed::Panic
                            } else {
                                skip_headers(b, p2 + vl, n - 1)
                            }
                        },
                    }
                }
            },
        }
    }
}

/// Where a length-prefixed field at `p` with length `len` ends: a negative
/// length means no bytes.
pub open spec fn field_end(p: int, len: int) -> int {
    if len >= 0 { p + len } else { p }
}

/// Steps over the key, value and headers of a record from `p`.
pub open spec fn skip_rest(b: Seq<u8>, p: int) -> Parsed<()> {
    match varint_at(b, p) {
        VarScan::Truncated => Parsed::Fail(FetchError::UnexpectedEndOfVarint),
        VarScan::Overlong => Parsed::Panic,
        VarScan::Value(rk, p1) => {
            let q1 = field_end(p1, zigzag32(rk) as int);
            if q1 > b.len() {
                Parsed::Panic
            } else {
                match varint_at(b, q1) {
                    VarScan::Truncated => Parsed::Fail(FetchError::UnexpectedEndOfVarint),
                    VarScan::Overlong => Parsed::Panic,
                    VarScan::Value(rv, p2) => {
                        let q2 = field_end(p2, zigzag32(rv) as int);
                        if q2 > b.len() {
                            Parsed::Panic
                        } else {
                            match varint_at(b, q2) {
                                VarScan::Truncated => Parsed::Fail(FetchError::UnexpectedEndOfVarint),
                                VarScan::Overlong => Parsed::Panic,
                                VarScan::Value(rh, p3) => skip_headers(b, p3, zigzag32(rh) as int),
                            }
                        }
                    },
                }
            }
        },
    }
}

/// The bytes of a length-prefixed field at `p`, `None` for a negative
/// length.
pub open spec fn field_bytes(b: Seq<u8>, p: int, len: int) -> Option<Seq<u8>> {
    if len >= 0 { Some(b.subrange(p, p + len)) } else { None }
}

/// Reads the key, value and headers of a record from `p` and builds it.
pub open spec fn keep_rest(b: Seq<u8>, p: int, offset: i64, base_ts: i64, ts_delta: i64) -> Parsed<RecordView> {
    match varint_at(b, p) {
        VarScan::Truncated => Parsed::Fail(FetchError::UnexpectedEndOfVarint),
        VarScan::Overlong => Parsed::Panic,
        VarScan::Value(rk, p1) => {
            let kl = zigzag32(rk) as int;
            let q1 = field_end(p1, kl);
            if q1 > b.len() {
                Parsed::Panic
            } else {
                match varint_at(b, q1) {
                    VarScan::Truncated => Parsed::Fail(FetchError::UnexpectedEndOfVarint),
                    VarScan::Overlong => Parsed::Panic,
                    VarScan::Value(rv, p2) => {
                        let vl = zigzag32(rv) as int;
                        let q2 = field_end(p2, vl);
                        if q2 > b.len() {
                            Parsed::Panic
                        } else {
                            match varint_at(b, q2) {
                                VarScan::Truncated => Parsed::Fail(FetchError::UnexpectedEndOfVarint),
                                VarScan::Overlong => Parsed::Panic,
                                VarScan::Value(rh, p3) => match parse_headers(b, p3, zigzag32(rh) as int, Seq::empty()) {
                                    Parsed::Done(hs, q) => {
                                        let ts = base_ts + ts_delta;
                                        if ts < i64::MIN || ts > i64::MAX {
                                            Parsed::Panic
                                        } else {
                                            let value = match field_bytes(b, p2, vl) {
                                                Some(v) => v,
                                                None => Seq::empty(),
                                            };
                                            Parsed::Done((offset, ts as i64, field_bytes(b, p1, kl), value, hs), q)
                                        }
                                    },
                                    Parsed::Fail(e) => Parsed::Fail(e),
                                    Parsed::Panic => Parsed::Panic,
                                },
                            }
                        }
                    },
                }
            }
        },
    }
}

/// What one record slot of a batch gives.
pub enum RecordStep {
    /// A record in range, and where the next starts.
    Keep(RecordView, int),
    /// A record out of range, stepped over.
    Skip(int),
    /// No further record: the bytes ran out, or the length does not fit.
    End,
    Fail(FetchError),
    Panic,
}

/// Reads the record at `p` of a batch with the given base offset and
/// timestamp, keeping it if its offset lies in `[min_offset, max_offset)`.
pub open spec fn record_step(b: Seq<u8>, p: int, base_offset: i64, base_ts: i64, min_offset: i64, max_offset: i64) -> RecordStep {
    if p >= b.len() {
        RecordStep::End
    } else {
        match varint_at(b, p) {
            VarScan::Truncated => RecordStep::Fail(FetchError::UnexpectedEndOfVarint),
            VarScan::Overlong => RecordStep::Panic,
            VarScan::Value(rl, p1) => {
                let length = zigzag32(rl) as int;
                if length < 0 || b.len() - p1 < length {
                    RecordStep::End
                } else if p1 >= b.len() {
                    RecordStep::Panic
                } else {
                    match varlong_at(b, p1 + 1) {
                        VarScan::Truncated => RecordStep::Fail(FetchError::UnexpectedEndOfVarlong),
                        VarScan::Overlong => RecordStep::Panic,
                        VarScan::Value(rt, p2) => match varint_at(b, p2) {
                            VarScan::Truncated => RecordStep::Fail(FetchError::UnexpectedEndOfVarint),
                            VarScan::Overlong => RecordStep::Panic,
                            VarScan::Value(ro, p3) => {
                                let off = base_offset + zigzag32(ro);
                                if off < i64::MIN || off > i64::MAX {
                                    RecordStep::Panic
                                } else if off < min_offset || off >= max_offset {
                                    match skip_rest(b, p3) {
                                        Parsed::Done(_, q) => RecordStep::Skip(q),
                                        Parsed::Fail(e) => RecordStep::Fail(e),
                                        Parsed::Panic => RecordStep::Panic,
                                    }
                                } else {
                                    match keep_rest(b, p3, off as i64, base_ts, zigzag64(rt)) {
                                        Parsed::Done(r, q) => RecordStep::Keep(r, q),
                                        Parsed::Fail(e) => RecordStep::Fail(e),
                                        Parsed::Panic => RecordStep::Panic,
                                    }
                                }
                            },
                        },
                    }
                }
            },
        }
    }
}

/// What decoding a batch gives.
pub enum BatchParse {
    Records(Seq<RecordView>),
    Fail(FetchError),
    Panic,
}

/// Reads up to `count` records from `p`, after the records `acc`.
pub open spec fn parse_records(
    b: Seq<u8>,
    p: int,
    count: int,
    base_offset: i64,
    base_ts: i64,
    min_offset: i64,
    max_offset: i64,
    acc: Seq<RecordView>,
) -> BatchParse
    decreases count,
{
    if count <= 0 {
        BatchParse::Records(acc)
    } else {
        match record_step(b, p, base_offset, base_ts, min_offset, max_offset) {
            RecordStep::End => BatchParse::Records(acc),
            RecordStep::Fail(e) => BatchParse::Fail(e),
            RecordStep::Panic => BatchParse::Panic,
            RecordStep::Skip(q) => parse_records(b, q, count - 1, base_offset, base_ts, min_offset, max_offset, acc),
            RecordStep::Keep(r, q) => parse_records(b, q, count - 1, base_offset, base_ts, min_offset, max_offset, acc.push(r)),
        }
    }
}

/// The records of batch `b` in `[min_offset, max_offset)`, in batch order.
pub open spec fn raw_batch_records(b: Seq<u8>, min_offset: i64, max_offset: i64) -> BatchParse {
    if b.len() < 61 {
        BatchParse::Fail(FetchError::RecordBatchTooSmall)
    } else {
        parse_records(b, 61, read_be_i32(b, 57) as int, read_be_i64(b, 0), read_be_i64(b, 27), min_offset, max_offset, Seq::empty())
    }
}

/// The `n` bytes from `from`.
fn copy_bytes(b: &[u8], from: usize, n: usize) -> (r: Vec<u8>)
    requires
        from + n <= b@.len(),
    ensures
        r@ == b@.subrange(from as int, from + n),
{
    let mut r: Vec<u8> = Vec::new();
    let mut i: usize = 0;
    while i < n
        invariant
            i <= n,
            from + n <= b.len(),
            r@ == b@.subrange(from as int, from + i),
        decreases n - i,
    {
        r.push(b[from + i]);
        i += 1;
        assert(r@ =~= b@.subrange(from as int, from + i));
    }
    r
}

/// Sets header `name` to `value`, replacing an earlier value of that name.
fn header_insert(hs: &mut Vec<(String, Vec<u8>)>, name: String, value: Vec<u8>)
    ensures
        final(hs)@.map_values(|h: (String, Vec<u8>)| header_view(h))
            == key_insert(old(hs)@.map_values(|h: (String, Vec<u8>)| header_view(h)), name@, value@),
{
    let ghost v0 = hs@.map_values(|h: (String, Vec<u8>)| header_view(h));
    proof {
        lemma_key_index(v0, name@);
    }
    let mut i: usize = 0;
    while i < hs.len()
        invariant
            i <= hs@.len(),
            v0 == hs@.map_values(|h: (String, Vec<u8>)| header_view(h)),
            v0 == old(hs)@.map_values(|h: (String, Vec<u8>)| header_view(h)),
            forall|j: int| 0 <= j < i ==> v0[j].0 != name@,
            -1 <= key_index(v0, name@) < v0.len(),
            key_index(v0, name@) >= 0 ==> v0[key_index(v0, name@)].0 == name@,
            key_index(v0, name@) >= 0 ==> forall|j: int| 0 <= j < key_index(v0, name@) ==> v0[j].0 != name@,
            key_index(v0, name@) < 0 ==> forall|j: int| 0 <= j < v0.len() ==> v0[j].0 != name@,
        decreases hs.len() - i,
    {
        assert(v0[i as int] == header_view(hs@[i as int]));
        if str_eq(hs[i].0.as_str(), name.as_str()) {
            assert(key_index(v0, name@) == i as int);
            let ghost nv = (name@, value@);
            hs.set(i, (name, value));
            assert(hs@.map_values(|h: (String, Vec<u8>)| header_view(h)) =~= v0.update(i as int, nv));
            return;
        }
        i += 1;
    }
    let ghost nv = (name@, value@);
    hs.push((name, value));
    assert(hs@.map_values(|h: (String, Vec<u8>)| header_view(h)) =~= v0.push(nv));
}

/// Reads `n` headers from `p`.
fn read_headers(b: &[u8], p: usize, n: i32) -> (r: Result<(Vec<(String, Vec<u8>)>, usize), FetchError>)
    requires
        !(parse_headers(b@, p as int, n as int, Seq::empty()) is Panic),
    ensures
        match parse_headers(b@, p as int, n as int, Seq::empty()) {
            Parsed::Done(hs, q) => r matches Ok(x) && x.0@.map_values(|h: (String, Vec<u8>)| header_view(h)) == hs && x.1 == q,
            Parsed::Fail(e) => r == Err::<(Vec<(String, Vec<u8>)>, usize), FetchError>(e),
            Parsed::Panic => false,
        },
{
    let blen = b.len();
    let mut hs: Vec<(String, Vec<u8>)> = Vec::new();
    let mut pos: usize = p;
    let mut j: i32 = 0;
    assert(hs@.map_values(|h: (String, Vec<u8>)| header_view(h)) =~= Seq::<(Seq<char>, Seq<u8>)>::empty());
    while j < n
        invariant
            0 <= j,
            n <= 0 ==> j == 0,
            n > 0 ==> j <= n,
            parse_headers(b@, pos as int, n - j, hs@.map_values(|h: (String, Vec<u8>)| header_view(h)))
                == parse_headers(b@, p as int, n as int, Seq::empty()),
            !(parse_headers(b@, p as int, n as int, Seq::empty()) is Panic),
        decreases n - j,
    {
        let (kl, p1) = match read_varint(b, pos) {
            Ok(x) => x,
            Err(e) => {
                return Err(e);
            },
        };
        if kl < 0 || p1 > b.len() || (kl as usize) > b.len() - p1 {
            assert(false);
            return Err(FetchError::UnexpectedEndOfVarint);
        }
        let kb = copy_bytes(b, p1, kl as usize);
        let name = utf8_lossy(kb.as_slice());
        let q1 = p1 + kl as usize;
        let (vl, p2) = match read_varint(b, q1) {
            Ok(x) => x,
            Err(e) => {
                return Err(e);
            },
        };
        if vl < 0 || p2 > b.len() || (vl as usize) > b.len() - p2 {
            assert(false);
            return Err(FetchError::UnexpectedEndOfVarint);
        }
        let vb = copy_bytes(b, p2, vl as usize);
        header_insert(&mut hs, name, vb);
        pos = p2 + vl as usize;
        j += 1;
    }
    Ok((hs, pos))
}

/// Steps over `n` headers from `p`.
fn pass_headers(b: &[u8], p: usize, n: i32) -> (r: Result<usize, FetchError>)
    requires
        !(skip_headers(b@, p as int, n as int) is Panic),
    ensures
        match skip_headers(b@, p as int, n as int) {
            Parsed::Done(_, q) => r matches Ok(x) && x == q,
            Parsed::Fail(e) => r == Err::<usize, FetchError>(e),
            Parsed::Panic => false,
        },
{
    let blen = b.len();
    let mut pos: usize = p;
    let mut j: i32 = 0;
    while j < n
        invariant
            0 <= j,
            n <= 0 ==> j == 0,
            n > 0 ==> j <= n,
            skip_headers(b@, pos as int, n - j) == skip_headers(b@, p as int, n as int),
            !(skip_headers(b@, p as int, n as int) is Panic),
            j > 0 ==> pos <= b@.len(),
        decreases n - j,
    {
        let (kl, p1) = match read_varint(b, pos) {
            Ok(x) => x,
            Err(e) => {
                return Err(e);
            },
        };
        if kl < 0 || p1 > b.len() || (kl as usize) > b.len() - p1 {
            assert(false);
            return Err(FetchError::UnexpectedEndOfVarint);
        }
        let q1 = p1 + kl as usize;
        let (vl, p2) = match read_varint(b, q1) {
            Ok(x) => x,
            Err(e) => {
                return Err(e);
            },
        };
        if vl < 0 || p2 > b.len() || (vl as usize) > b.len() - p2 {
            assert(false);
            return Err(FetchError::UnexpectedEndOfVarint);
        }
        pos = p2 + vl as usize;
        j += 1;
    }
    Ok(pos)
}

/// Steps over the key, value and headers of a record from `p`.
fn pass_rest(b: &[u8], p: usize) -> (r: Result<usize, FetchError>)
    requires
        !(skip_rest(b@, p as int) is Panic),
    ensures
        match skip_rest(b@, p as int) {
            Parsed::Done(_, q) => r matches Ok(x) && x == q,
            Parsed::Fail(e) => r == Err::<usize, FetchError>(e),
            Parsed::Panic => false,
        },
{
    let blen = b.len();
    let (kl, p1) = match read_varint(b, p) {
        Ok(x) => x,
        Err(e) => {
            return Err(e);
        },
    };

    let q1: usize = if kl >= 0 {
        if (kl as usize) > b.len() - p1 {
            assert(false);
            return Err(FetchError::UnexpectedEndOfVarint);
        }
        p1 + kl as usize
    } else {
        p1
    };
    assert(q1 as int == field_end(p1 as int, kl as int));
    let (vl, p2) = match read_varint(b, q1) {
        Ok(x) => x,
        Err(e) => {
            return Err(e);
        },
    };
    let q2: usize = if vl >= 0 {
        if (vl as usize) > b.len() - p2 {
            assert(false);
            return Err(FetchError::UnexpectedEndOfVarint);
        }
        p2 + vl as usize
    } else {
        p2
    };
    let (hc, p3) = match read_varint(b, q2) {
        Ok(x) => x,
        Err(e) => {
            return Err(e);
        },
    };
    pass_headers(b, p3, hc)
}

/// Reads the key, value and headers of a record from `p` and builds it.
fn take_rest(b: &[u8], p: usize, offset: i64, base_ts: i64, ts_delta: i64) -> (r: Result<(Record, usize), FetchError>)
    requires
        !(keep_rest(b@, p as int, offset, base_ts, ts_delta) is Panic),
    ensures
        match keep_rest(b@, p as int, offset, base_ts, ts_delta) {
            Parsed::Done(rv, q) => r matches Ok(x) && record_view(x.0) == rv && x.1 == q,
            Parsed::Fail(e) => r matches Err(x) && x == e,
            Parsed::Panic => false,
        },
{
    let blen = b.len();
    let (kl, p1) = match read_varint(b, p) {
        Ok(x) => x,
        Err(e) => {
            return Err(e);
        },
    };
    let mut key: Option<Vec<u8>> = None;
    let q1: usize = if kl >= 0 {
        if (kl as usize) > b.len() - p1 {
            assert(false);
            return Err(FetchError::UnexpectedEndOfVarint);
        }
        key = Some(copy_bytes(b, p1, kl as usize));
        p1 + kl as usize
    } else {
        p1
    };
    let (vl, p2) = match read_varint(b, q1) {
        Ok(x) => x,
        Err(e) => {
            return Err(e);
        },
    };
    let mut value: Vec<u8> = Vec::new();
    let q2: usize = if vl >= 0 {
        if (vl as usize) > b.len() - p2 {
            assert(false);
            return Err(FetchError::UnexpectedEndOfVarint);
        }
        value = copy_bytes(b, p2, vl as usize);
        p2 + vl as usize
    } else {
        p2
    };
    let (hc, p3) = match read_varint(b, q2) {
        Ok(x) => x,
        Err(e) => {
            return Err(e);
        },
    };
    let (headers, q) = match read_headers(b, p3, hc) {
        Ok(x) => x,
        Err(e) => {
            return Err(e);
        },
    };
    let timestamp = match base_ts.checked_add(ts_delta) {
        Some(t) => t,
        None => {
            assert(false);
            return Err(FetchError::UnexpectedEndOfVarint);
        },
    };
    let rec = Record { offset, timestamp, key, value, headers };
    assert(value@ =~= match field_bytes(b@, p2 as int, vl as int) {
        Some(v) => v,
        None => Seq::empty(),
    });
    Ok((rec, q))
}

/// One record slot's outcome, for the decoding loop.
pub enum SlotOut {
    Keep(Record, usize),
    Skip(usize),
    End,
}

/// Reads the record at `p`.
fn read_record(b: &[u8], p: usize, base_offset: i64, base_ts: i64, min_offset: i64, max_offset: i64) -> (r: Result<SlotOut, FetchError>)
    requires
        !(record_step(b@, p as int, base_offset, base_ts, min_offset, max_offset) is Panic),
    ensures
        match record_step(b@, p as int, base_offset, base_ts, min_offset, max_offset) {
            RecordStep::Keep(rv, q) => r matches Ok(SlotOut::Keep(rec, q2)) && record_view(rec) == rv && q2 == q,
            RecordStep::Skip(q) => r matches Ok(SlotOut::Skip(q2)) && q2 == q,
            RecordStep::End => r matches Ok(SlotOut::End),
            RecordStep::Fail(e) => r matches Err(x) && x == e,
            RecordStep::Panic => false,
        },
{
    let blen = b.len();
    if p >= b.len() {
        return Ok(SlotOut::End);
    }
    let (length, p1) = match read_varint(b, p) {
        Ok(x) => x,
        Err(e) => {
            return Err(e);
        },
    };
    if length < 0 || b.len() - p1 < length as usize {
        return Ok(SlotOut::End);
    }
    if p1 >= b.len() {
        assert(false);
        return Ok(SlotOut::End);
    }
    let (ts_delta, p2) = match read_varlong(b, p1 + 1) {
        Ok(x) => x,
        Err(e) => {
            return Err(e);
        },
    };
    let (od, p3) = match read_varint(b, p2) {
        Ok(x) => x,
        Err(e) => {
            return Err(e);
        },
    };
    let off = match base_offset.checked_add(od as i64) {
        Some(o) => o,
        None => {
            assert(false);
            return Ok(SlotOut::End);
        },
    };
    if off < min_offset || off >= max_offset {
        match pass_rest(b, p3) {
            Ok(q) => Ok(SlotOut::Skip(q)),
            Err(e) => Err(e),
        }
    } else {
        match take_rest(b, p3, off, base_ts, ts_delta) {
            Ok((rec, q)) => Ok(SlotOut::Keep(rec, q)),
            Err(e) => Err(e),
        }
    }
}

/// The records of v2 record batch `raw_bytes` whose offset lies in
/// `[min_offset, max_offset)`, in batch order. Offsets are the batch's base
/// offset plus each record's delta; timestamps its base timestamp plus each
/// record's delta. Decoding stops early, keeping what it has, when the bytes
/// run out or a record's length does not fit; a varint cut short is an
/// error, and so is a batch shorter than its 61-byte header.
pub fn decode_records_from_raw_batch(raw_bytes: &[u8], min_offset: i64, max_offset: i64) -> (r: Result<Vec<Record>, FetchError>)
    requires
        !(raw_batch_records(raw_bytes@, min_offset, max_offset) is Panic),
    ensures
        match raw_batch_records(raw_bytes@, min_offset, max_offset) {
            BatchParse::Records(rs) => r matches Ok(v) && records_view(v@) == rs,
            BatchParse::Fail(e) => r matches Err(x) && x == e,
            BatchParse::Panic => false,
        },
{
    if raw_bytes.len() < 61 {
        return Err(FetchError::RecordBatchTooSmall);
    }
    let base_offset = buf_get_i64(raw_bytes, 0);
    let base_ts = buf_get_i64(raw_bytes, 27);
    let count = buf_get_i32(raw_bytes, 57);
    let ghost goal = raw_batch_records(raw_bytes@, min_offset, max_offset);
    let mut records: Vec<Record> = Vec::new();
    let mut pos: usize = 61;
    let mut i: i32 = 0;
    assert(records_view(records@) =~= Seq::<RecordView>::empty());
    while i < count
        invariant
            0 <= i,
            count <= 0 ==> i == 0,
            count > 0 ==> i <= count,
            goal == raw_batch_records(raw_bytes@, min_offset, max_offset),
            !(goal is Panic),
            raw_bytes@.len() >= 61,
            goal == parse_records(raw_bytes@, pos as int, count - i, base_offset, base_ts, min_offset, max_offset, records_view(records@)),
        decreases count - i,
    {
        match read_record(raw_bytes, pos, base_offset, base_ts, min_offset, max_offset) {
            Ok(SlotOut::End) => {
                return Ok(records);
            },
            Ok(SlotOut::Skip(q)) => {
                pos = q;
            },
            Ok(SlotOut::Keep(rec, q)) => {
                let ghost before = records@;
                records.push(rec);
                assert(records_view(records@) =~= records_view(before).push(record_view(rec)));
                pos = q;
            },
            Err(e) => {
                return Err(e);
            },
        }
        i += 1;
    }
    Ok(records)
}

/// Whether every record of `rs` has an offset in `[min_offset, max_offset)`.
pub open spec fn all_in_range(rs: Seq<RecordView>, min_offset: i64, max_offset: i64) -> bool {
    forall|i: int| 0 <= i < rs.len() ==> min_offset <= (#[trigger] rs[i]).0 < max_offset
}

proof fn lemma_parse_records_in_range(
    b: Seq<u8>,
    p: int,
    count: int,
    base_offset: i64,
    base_ts: i64,
    min_offset: i64,
    max_offset: i64,
    acc: Seq<RecordView>,
)
    requires
        all_in_range(acc, min_offset, max_offset),
    ensures
        parse_records(b, p, count, base_offset, base_ts, min_offset, max_offset, acc) matches BatchParse::Records(rs)
            ==> all_in_range(rs, min_offset, max_offset),
    decreases count,
{
    if count > 0 {
        match record_step(b, p, base_offset, base_ts, min_offset, max_offset) {
            RecordStep::Skip(q) => {
                lemma_parse_records_in_range(b, q, count - 1, base_offset, base_ts, min_offset, max_offset, acc);
            },
            RecordStep::Keep(r, q) => {
                lemma_record_step_keeps_in_range(b, p, base_offset, base_ts, min_offset, max_offset);
                let next = acc.push(r);
                assert forall|i: int| 0 <= i < next.len() implies min_offset <= (#[trigger] next[i]).0 < max_offset by {
                    if i < acc.len() {
                        assert(next[i] == acc[i]);
                    }
                }
                lemma_parse_records_in_range(b, q, count - 1, base_offset, base_ts, min_offset, max_offset, next);
            },
            _ => {},
        }
    }
}

proof fn lemma_record_step_keeps_in_range(b: Seq<u8>, p: int, base_offset: i64, base_ts: i64, min_offset: i64, max_offset: i64)
    ensures
        record_step(b, p, base_offset, base_ts, min_offset, max_offset) matches RecordStep::Keep(r, q)
            ==> min_offset <= r.0 < max_offset,
{
}

/// A decoded batch holds only records in the requested range: every record
/// `decode_records_from_raw_batch` returns has an offset in
/// `[min_offset, max_offset)`.
pub proof fn lemma_decoded_records_in_range(b: Seq<u8>, min_offset: i64, max_offset: i64)
    ensures
        raw_batch_records(b, min_offset, max_offset) matches BatchParse::Records(rs) ==> all_in_range(rs, min_offset, max_offset),
{
    if b.len() >= 61 {
        lemma_parse_records_in_range(b, 61, read_be_i32(b, 57) as int, read_be_i64(b, 0), read_be_i64(b, 27), min_offset, max_offset, Seq::empty());
    }
}

// ----- telling ahead whether a batch decodes without panicking -----

proof fn lemma_overlong_any_acc(b: Seq<u8>, p: int, k: nat, groups: nat, a1: int, a2: int)
    ensures
        (scan_var(b, p, k, groups, a1) is Overlong) == (scan_var(b, p, k, groups, a2) is Overlong),
    decreases b.len() - p,
{
    if 0 <= p < b.len() && k < groups && b[p] >= 128 {
        lemma_overlong_any_acc(b, p + 1, k + 1, groups, a1 + (b[p] - 128) * pow(128, k), a2 + (b[p] - 128) * pow(128, k));
    }
}

/// Whether the varint (5 groups) or varlong (10 groups) at `p` runs past
/// the groups its integer has room for.
fn var_overlong(b: &[u8], p: usize, groups: usize) -> (r: bool)
    ensures
        r == (scan_var(b@, p as int, 0, groups as nat, 0) is Overlong),
{
    let mut q: usize = p;
    let mut k: usize = 0;
    while q < b.len() && k < groups && b[q] >= 128
        invariant
            p <= q,
            (scan_var(b@, q as int, k as nat, groups as nat, 0) is Overlong) == (scan_var(b@, p as int, 0, groups as nat, 0) is Overlong),
        decreases b@.len() - q,
    {
        proof {
            lemma_overlong_any_acc(b@, q as int + 1, k as nat + 1, groups as nat, 0, (b@[q as int] - 128) * pow(128, k as nat));
        }
        q += 1;
        k += 1;
    }
    q < b.len() && k >= groups
}

/// Where a walk over part of a batch ends: at a position, at an error the
/// decoder reports, or at a panic.
enum Walk {
    At(usize),
    Fails,
    Panics,
}

/// The outcome of a parse, read as a walk.
spec fn walk_matches<T>(w: Walk, p: Parsed<T>) -> bool {
    match p {
        Parsed::Done(_, q) => w == Walk::At(q as usize) && 0 <= q <= usize::MAX,
        Parsed::Fail(_) => w is Fails,
        Parsed::Panic => w is Panics,
    }
}

proof fn lemma_headers_walk_alike(b: Seq<u8>, p: int, n: int, acc: HeadersView)
    ensures
        match (parse_headers(b, p, n, acc), skip_headers(b, p, n)) {
            (Parsed::Done(_, q1), Parsed::Done(_, q2)) => q1 == q2,
            (Parsed::Fail(_), Parsed::Fail(_)) => true,
            (Parsed::Panic, Parsed::Panic) => true,
            _ => false,
        },
    decreases n,
{
    if n > 0 {
        match varint_at(b, p) {
            VarScan::Value(rk, p1) => {
                let kl = zigzag32(rk) as int;
                if !(kl < 0 || p1 + kl > b.len()) {
                    match varint_at(b, p1 + kl) {
                        VarScan::Value(rv, p2) => {
                            let vl = zigzag32(rv) as int;
                            if !(vl < 0 || p2 + vl > b.len()) {
                                lemma_headers_walk_alike(b, p2 + vl, n - 1,
                                    key_insert(acc, lossy_utf8(b.subrange(p1, p1 + kl)), b.subrange(p2, p2 + vl)));
                            }
                        },
                        _ => {},
                    }
                }
            },
            _ => {},
        }
    }
}

/// Reads the varint at `p` as a walk step: its value and end, or how the
/// walk stops there.
fn walk_varint(b: &[u8], p: usize) -> (r: Result<(i32, usize), Walk>)
    ensures
        match varint_at(b@, p as int) {
            VarScan::Value(raw, next) => r == Ok::<(i32, usize), Walk>((zigzag32(raw), next as usize)) && p < next <= b@.len(),
            VarScan::Truncated => r == Err::<(i32, usize), Walk>(Walk::Fails),
            VarScan::Overlong => r == Err::<(i32, usize), Walk>(Walk::Panics),
        },
{
    if var_overlong(b, p, 5) {
        return Err(Walk::Panics);
    }
    match read_varint(b, p) {
        Ok(x) => Ok(x),
        Err(_) => Err(Walk::Fails),
    }
}

/// Walks `n` headers from `p` as `skip_headers` does.
fn walk_headers(b: &[u8], p: usize, n: i32) -> (r: Walk)
    ensures
        walk_matches(r, skip_headers(b@, p as int, n as int)),
{
    let blen = b.len();
    let mut pos: usize = p;
    let mut j: i32 = 0;
    while j < n
        invariant
            0 <= j,
            n <= 0 ==> j == 0,
            n > 0 ==> j <= n,
            skip_headers(b@, pos as int, n - j) == skip_headers(b@, p as int, n as int),
        decreases n - j,
    {
        let (kl, p1) = match walk_varint(b, pos) {
            Ok(x) => x,
            Err(w) => {
                return w;
            },
        };
        if kl < 0 || (kl as usize) > b.len() - p1 {
            return Walk::Panics;
        }
        let q1 = p1 + kl as usize;
        let (vl, p2) = match walk_varint(b, q1) {
            Ok(x) => x,
            Err(w) => {
                return w;
            },
        };
        if vl < 0 || (vl as usize) > b.len() - p2 {
            return Walk::Panics;
        }
        pos = p2 + vl as usize;
        j += 1;
    }
    Walk::At(pos)
}

/// Walks the key, value and headers of a record from `p`: as `skip_rest`
/// does when `keep` is false, as `keep_rest` does (with the timestamp
/// `base_ts + ts_delta`) when it is true.
fn walk_rest(b: &[u8], p: usize, keep: bool, offset: i64, base_ts: i64, ts_delta: i64) -> (r: Walk)
    ensures
        keep ==> walk_matches(r, keep_rest(b@, p as int, offset, base_ts, ts_delta)),
        !keep ==> walk_matches(r, skip_rest(b@, p as int)),
{
    let blen = b.len();
    let w_kl = walk_varint(b, p);
    let (kl, p1) = match w_kl {
        Ok(x) => x,
        Err(w) => {
            return w;
        },
    };
    assert(w_kl == Ok::<(i32, usize), Walk>((kl, p1)));
    let ghost rk = varint_at(b@, p as int)->Value_0;
    assert(varint_at(b@, p as int) == VarScan::Value(rk, p1 as int));
    let q1: usize = if kl >= 0 {
        if (kl as usize) > b.len() - p1 {
            return Walk::Panics;
        }
        p1 + kl as usize
    } else {
        p1
    };
    assert(q1 as int == field_end(p1 as int, kl as int));
    assert(q1 <= b@.len());
    let w_vl = walk_varint(b, q1);
    let (vl, p2) = match w_vl {
        Ok(x) => x,
        Err(w) => {
            return w;
        },
    };
    assert(w_vl == Ok::<(i32, usize), Walk>((vl, p2)));
    let ghost rv = varint_at(b@, q1 as int)->Value_0;
    assert(varint_at(b@, q1 as int) == VarScan::Value(rv, p2 as int));
    let q2: usize = if vl >= 0 {
        if (vl as usize) > b.len() - p2 {
            return Walk::Panics;
        }
        p2 + vl as usize
    } else {
        p2
    };
    assert(q2 as int == field_end(p2 as int, vl as int));
    let w_hc = walk_varint(b, q2);
    let (hc, p3) = match w_hc {
        Ok(x) => x,
        Err(w) => {
            return w;
        },
    };
    assert(w_hc == Ok::<(i32, usize), Walk>((hc, p3)));
    let ghost rh = varint_at(b@, q2 as int)->Value_0;
    assert(varint_at(b@, q2 as int) == VarScan::Value(rh, p3 as int));
    let w = walk_headers(b, p3, hc);
    proof {
        lemma_headers_walk_alike(b@, p3 as int, hc as int, Seq::empty());
    }
    if keep {
        if let Walk::At(_) = w {
            if base_ts.checked_add(ts_delta).is_none() {
                return Walk::Panics;
            }
        }
    }
    w
}

/// Walks the record at `p` as `record_step` does.
fn walk_record(b: &[u8], p: usize, base_offset: i64, base_ts: i64, min_offset: i64, max_offset: i64) -> (r: Result<Option<usize>, Walk>)
    ensures
        ({
            let st = slot(b@, p as int, base_offset, base_ts, min_offset, max_offset);
            &&& st.0 <= 3
            &&& st.0 == 0 ==> r == Ok::<Option<usize>, Walk>(Some(st.1 as usize)) && 0 <= st.1 <= usize::MAX
            &&& st.0 == 1 ==> r == Ok::<Option<usize>, Walk>(None)
            &&& st.0 == 2 ==> r == Err::<Option<usize>, Walk>(Walk::Fails)
            &&& st.0 == 3 ==> r == Err::<Option<usize>, Walk>(Walk::Panics)
        }),
{
    proof {
        reveal(slot);
    }
    if p >= b.len() {
        return Ok(None);
    }
    let (length, p1) = match walk_varint(b, p) {
        Ok(x) => x,
        Err(w) => {
            return Err(w);
        },
    };
    if length < 0 || b.len() - p1 < length as usize {
        return Ok(None);
    }
    if p1 >= b.len() {
        return Err(Walk::Panics);
    }
    if var_overlong(b, p1 + 1, 10) {
        return Err(Walk::Panics);
    }
    let (ts_delta, p2) = match read_varlong(b, p1 + 1) {
        Ok(x) => x,
        Err(_) => {
            return Err(Walk::Fails);
        },
    };
    let (od, p3) = match walk_varint(b, p2) {
        Ok(x) => x,
        Err(w) => {
            return Err(w);
        },
    };
    let off = match base_offset.checked_add(od as i64) {
        Some(o) => o,
        None => {
            return Err(Walk::Panics);
        },
    };
    let keep = !(off < min_offset || off >= max_offset);
    match walk_rest(b, p3, keep, off, base_ts, ts_delta) {
        Walk::At(q) => Ok(Some(q)),
        w => Err(w),
    }
}

/// Whether `decode_records_from_raw_batch` can decode `raw_bytes` for the
/// range: no read past the end, negative header length, overlong varint or
/// overflowing offset or timestamp on the way.
pub fn raw_batch_decodes(raw_bytes: &[u8], min_offset: i64, max_offset: i64) -> (ok: bool)
    ensures
        ok == !(raw_batch_records(raw_bytes@, min_offset, max_offset) is Panic),
{
    let blen = raw_bytes.len();
    proof {
        lemma_batch_panics(raw_bytes@, min_offset, max_offset);
    }
    if raw_bytes.len() < 61 {
        return true;
    }
    let base_offset = buf_get_i64(raw_bytes, 0);
    let base_ts = buf_get_i64(raw_bytes, 27);
    let count = buf_get_i32(raw_bytes, 57);
    let ghost goal = batch_panics(raw_bytes@, min_offset, max_offset);
    assert(goal == panics_from(raw_bytes@, 61, count as int, base_offset, base_ts, min_offset, max_offset));
    let mut pos: usize = 61;
    let mut i: i32 = 0;
    while i < count
        invariant
            0 <= i,
            count <= 0 ==> i == 0,
            count > 0 ==> i <= count,
            goal == batch_panics(raw_bytes@, min_offset, max_offset),
            goal == panics_from(raw_bytes@, pos as int, count - i, base_offset, base_ts, min_offset, max_offset),
        decreases count - i,
    {
        proof {
            lemma_panics_from_step(raw_bytes@, pos as int, count - i, base_offset, base_ts, min_offset, max_offset);
            lemma_batch_panics(raw_bytes@, min_offset, max_offset);
        }
        match walk_record(raw_bytes, pos, base_offset, base_ts, min_offset, max_offset) {
            Ok(Some(q)) => {
                pos = q;
            },
            Ok(None) => {
                return true;
            },
            Err(Walk::Fails) => {
                return true;
            },
            Err(_) => {
                return false;
            },
        }
        i += 1;
    }
    proof {
        lemma_panics_from_step(raw_bytes@, pos as int, count - i, base_offset, base_ts, min_offset, max_offset);
        lemma_batch_panics(raw_bytes@, min_offset, max_offset);
    }
    true
}

/// Whether decoding batch `b` for the range panics.
#[verifier::opaque]
spec fn batch_panics(b: Seq<u8>, min_offset: i64, max_offset: i64) -> bool {
    raw_batch_records(b, min_offset, max_offset) is Panic
}

proof fn lemma_batch_panics(b: Seq<u8>, min_offset: i64, max_offset: i64)
    ensures
        batch_panics(b, min_offset, max_offset) == (raw_batch_records(b, min_offset, max_offset) is Panic),
        b.len() < 61 ==> !batch_panics(b, min_offset, max_offset),
        b.len() >= 61 ==> batch_panics(b, min_offset, max_offset)
            == panics_from(b, 61, read_be_i32(b, 57) as int, read_be_i64(b, 0), read_be_i64(b, 27), min_offset, max_offset),
{
    reveal(batch_panics);
    reveal(panics_from);
}

/// A record slot in brief: 0 with where the next starts, 1 at the end, 2
/// on a decoding error, 3 on a panic.
#[verifier::opaque]
spec fn slot(b: Seq<u8>, p: int, base_offset: i64, base_ts: i64, min_offset: i64, max_offset: i64) -> (u8, int) {
    match record_step(b, p, base_offset, base_ts, min_offset, max_offset) {
        RecordStep::Keep(_, q) => (0, q),
        RecordStep::Skip(q) => (0, q),
        RecordStep::End => (1, 0),
        RecordStep::Fail(_) => (2, 0),
        RecordStep::Panic => (3, 0),
    }
}

/// Whether `parse_records` from `p` with `count` slots left panics.
#[verifier::opaque]
spec fn panics_from(b: Seq<u8>, p: int, count: int, base_offset: i64, base_ts: i64, min_offset: i64, max_offset: i64) -> bool {
    parse_records(b, p, count, base_offset, base_ts, min_offset, max_offset, Seq::empty()) is Panic
}

proof fn lemma_panics_from_step(b: Seq<u8>, p: int, count: int, base_offset: i64, base_ts: i64, min_offset: i64, max_offset: i64)
    ensures
        count <= 0 ==> !panics_from(b, p, count, base_offset, base_ts, min_offset, max_offset),
        count > 0 ==> panics_from(b, p, count, base_offset, base_ts, min_offset, max_offset) == ({
            let st = slot(b, p, base_offset, base_ts, min_offset, max_offset);
            if st.0 == 0 { panics_from(b, st.1, count - 1, base_offset, base_ts, min_offset, max_offset) } else { st.0 == 3 }
        }),
{
    reveal(panics_from);
    reveal(slot);
    if count > 0 {
        lemma_records_panic_step(b, p, count, base_offset, base_ts, min_offset, max_offset, Seq::empty());
    }
}

/// One record slot of `parse_records`, as far as panicking goes.
proof fn lemma_records_panic_step(
    b: Seq<u8>,
    p: int,
    count: int,
    base_offset: i64,
    base_ts: i64,
    min_offset: i64,
    max_offset: i64,
    acc: Seq<RecordView>,
)
    requires
        count > 0,
    ensures
        (parse_records(b, p, count, base_offset, base_ts, min_offset, max_offset, acc) is Panic) == match record_step(b, p, base_offset, base_ts, min_offset, max_offset) {
            RecordStep::Keep(_, q) => parse_records(b, q, count - 1, base_offset, base_ts, min_offset, max_offset, acc) is Panic,
            RecordStep::Skip(q) => parse_records(b, q, count - 1, base_offset, base_ts, min_offset, max_offset, acc) is Panic,
            RecordStep::Panic => true,
            _ => false,
        },
{
    match record_step(b, p, base_offset, base_ts, min_offset, max_offset) {
        RecordStep::Keep(r, q) => {
            lemma_parse_records_panic_any_acc(b, q, count - 1, base_offset, base_ts, min_offset, max_offset, acc.push(r), acc);
        },
        _ => {},
    }
}

proof fn lemma_parse_records_panic_any_acc(
    b: Seq<u8>,
    p: int,
    count: int,
    base_offset: i64,
    base_ts: i64,
    min_offset: i64,
    max_offset: i64,
    a1: Seq<RecordView>,
    a2: Seq<RecordView>,
)
    ensures
        (parse_records(b, p, count, base_offset, base_ts, min_offset, max_offset, a1) is Panic)
            == (parse_records(b, p, count, base_offset, base_ts, min_offset, max_offset, a2) is Panic),
    decreases count,
{
    if count > 0 {
        match record_step(b, p, base_offset, base_ts, min_offset, max_offset) {
            RecordStep::Skip(q) => {
                lemma_parse_records_panic_any_acc(b, q, count - 1, base_offset, base_ts, min_offset, max_offset, a1, a2);
            },
            RecordStep::Keep(r, q) => {
                lemma_parse_records_panic_any_acc(b, q, count - 1, base_offset, base_ts, min_offset, max_offset, a1.push(r), a2.push(r));
            },
            _ => {},
        }
    }
}

} // verus!
