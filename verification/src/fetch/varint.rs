//! Zigzag varints as record batches carry them: little-endian groups of
//! seven bits, the high bit of each byte set while more follow; a varint
//! fills 32 bits, a varlong 64, and the value is zigzag-decoded.
use vstd::prelude::*;
use vstd::arithmetic::power::pow;

verus! {

/// Why reading a record batch failed.
#[derive(Clone, Copy, Debug, PartialEq, Eq, Structural)]
pub enum FetchError {
    /// Fewer than the 61 header bytes of a record batch.
    RecordBatchTooSmall,
    /// The bytes ended inside a varint.
    UnexpectedEndOfVarint,
    /// The bytes ended inside a varlong.
    UnexpectedEndOfVarlong,
}

/// What scanning a varint from a position meets.
pub enum VarScan {
    /// The groups' sum (before truncation and zigzag), and where the next
    /// field starts.
    Value(int, int),
    /// The bytes end first.
    Truncated,
    /// More groups than the integer has room for: reading the next one
    /// shifts past its width.
    Overlong,
}

/// Scans groups from `p`, the `k`-th group of at most `groups`, with `acc`
/// summed so far.
pub open spec fn scan_var(b: Seq<u8>, p: int, k: nat, groups: nat, acc: int) -> VarScan
    decreases b.len() - p,
{
    if p < 0 || p >= b.len() {
        VarScan::Truncated
    } else if k >= groups {
        VarScan::Overlong
    } else if b[p] < 128 {
        VarScan::Value(acc + b[p] * pow(128, k), p + 1)
    } else {
        scan_var(b, p + 1, k + 1, groups, acc + (b[p] - 128) * pow(128, k))
    }
}

/// The 32-bit varint at `p`.
pub open spec fn varint_at(b: Seq<u8>, p: int) -> VarScan {
    scan_var(b, p, 0, 5, 0)
}

/// The 64-bit varint (varlong) at `p`.
pub open spec fn varlong_at(b: Seq<u8>, p: int) -> VarScan {
    scan_var(b, p, 0, 10, 0)
}

/// Zigzag decoding of the low 32 bits of `raw`, read as a signed integer
/// shifted arithmetically.
pub open spec fn zigzag32(raw: int) -> i32 {
    let u = raw % 0x1_0000_0000;
    let s = if u >= 0x8000_0000 { u - 0x1_0000_0000 } else { u };
    let h = s / 2;
    (if u % 2 == 0 { h } else { -h - 1 }) as i32
}

/// Zigzag decoding of the low 64 bits of `raw`, read as a signed integer
/// shifted arithmetically.
pub open spec fn zigzag64(raw: int) -> i64 {
    let u = raw % 0x1_0000_0000_0000_0000;
    let s = if u >= 0x8000_0000_0000_0000 { u - 0x1_0000_0000_0000_0000 } else { u };
    let h = s / 2;
    (if u % 2 == 0 { h } else { -h - 1 }) as i64
}

proof fn lemma_pow128_step(k: nat)
    ensures
        pow(128, k + 1) == 128 * pow(128, k),
        pow(128, k) >= 1,
{
    vstd::arithmetic::power::lemma_pow_positive(128, k);
    assert(pow(128, k + 1) == 128 * pow(128, (k + 1 - 1) as nat)) by {
        reveal(pow);
    }
}

/// A varint that scans to a value ends after it starts and within the bytes.
pub proof fn lemma_scan_var_next(b: Seq<u8>, p: int, k: nat, groups: nat, acc: int)
    ensures
        scan_var(b, p, k, groups, acc) matches VarScan::Value(_, next) ==> p < next <= b.len(),
    decreases b.len() - p,
{
    if 0 <= p < b.len() && k < groups && b[p] >= 128 {
        lemma_scan_var_next(b, p + 1, k + 1, groups, acc + (b[p] - 128) * pow(128, k));
    }
}

proof fn lemma_pow128_bounds()
    ensures
        pow(128, 4) == 0x10000000,
        pow(128, 9) == 0x8000_0000_0000_0000int,
{
    vstd::arithmetic::power::lemma_pow0(128);
    lemma_pow128_step(0);
    lemma_pow128_step(1);
    lemma_pow128_step(2);
    lemma_pow128_step(3);
    lemma_pow128_step(4);
    lemma_pow128_step(5);
    lemma_pow128_step(6);
    lemma_pow128_step(7);
    lemma_pow128_step(8);
}

/// Reads the varint at `pos`: its value and where the next field starts.
pub fn read_varint(b: &[u8], pos: usize) -> (r: Result<(i32, usize), FetchError>)
    requires
        !(varint_at(b@, pos as int) is Overlong),
    ensures
        match varint_at(b@, pos as int) {
            VarScan::Value(raw, next) => pos < next <= b@.len() && r == Ok::<(i32, usize), FetchError>((zigzag32(raw), next as usize)),
            VarScan::Truncated => r == Err::<(i32, usize), FetchError>(FetchError::UnexpectedEndOfVarint),
            VarScan::Overlong => false,
        },
{
    proof {
        lemma_scan_var_next(b@, pos as int, 0, 5, 0);
    }
    if pos >= b.len() {
        return Err(FetchError::UnexpectedEndOfVarint);
    }
    let mut sum: u64 = 0;
    let mut mult: u64 = 1;
    let mut k: usize = 0;
    let mut p: usize = pos;
    proof {
        vstd::arithmetic::power::lemma_pow0(128);
    }
    loop
        invariant
            scan_var(b@, p as int, k as nat, 5, sum as int) == varint_at(b@, pos as int),
            !(varint_at(b@, pos as int) is Overlong),
            k <= 5,
            mult == pow(128, k as nat),
            sum < mult,
            p <= b@.len(),
            pos <= p,
        decreases b@.len() - p,
    {
        if p >= b.len() {
            return Err(FetchError::UnexpectedEndOfVarint);
        }
        assert(k < 5);
        proof {
            lemma_pow128_step(k as nat);
            assert(mult <= 0x10000000) by {
                lemma_pow128_bounds();
                vstd::arithmetic::power::lemma_pow_increases(128, k as nat, 4);
            }
        }
        let byte = b[p];
        assert((byte as u64) * mult <= 255 * 0x10000000) by (nonlinear_arith)
            requires
                byte < 256,
                mult <= 0x10000000;
        if byte < 128 {
            let total: u64 = sum + (byte as u64) * mult;
            let u: u64 = total % 0x1_0000_0000;
            let half: i64 = (u / 2) as i64 - if u >= 0x8000_0000 { 0x8000_0000i64 } else { 0i64 };
            let v: i64 = if u % 2 == 0 { half } else { -half - 1 };
            return Ok((v as i32, p + 1));
        }
        assert(((byte - 128) as u64) * mult <= 127 * 0x10000000) by (nonlinear_arith)
            requires
                byte >= 128,
                byte < 256,
                mult <= 0x10000000;
        assert(sum + ((byte - 128) as u64) * mult < mult * 128) by (nonlinear_arith)
            requires
                byte >= 128,
                byte < 256,
                sum < mult;
        sum = sum + ((byte - 128) as u64) * mult;
        mult = mult * 128;
        k = k + 1;
        p = p + 1;
    }
}

/// Reads the varlong at `pos`: its value and where the next field starts.
pub fn read_varlong(b: &[u8], pos: usize) -> (r: Result<(i64, usize), FetchError>)
    requires
        !(varlong_at(b@, pos as int) is Overlong),
    ensures
        match varlong_at(b@, pos as int) {
            VarScan::Value(raw, next) => pos < next <= b@.len() && r == Ok::<(i64, usize), FetchError>((zigzag64(raw), next as usize)),
            VarScan::Truncated => r == Err::<(i64, usize), FetchError>(FetchError::UnexpectedEndOfVarlong),
            VarScan::Overlong => false,
        },
{
    proof {
        lemma_scan_var_next(b@, pos as int, 0, 10, 0);
    }
    if pos >= b.len() {
        return Err(FetchError::UnexpectedEndOfVarlong);
    }
    let mut sum: u128 = 0;
    let mut mult: u128 = 1;
    let mut k: usize = 0;
    let mut p: usize = pos;
    proof {
        vstd::arithmetic::power::lemma_pow0(128);
    }
    loop
        invariant
            scan_var(b@, p as int, k as nat, 10, sum as int) == varlong_at(b@, pos as int),
            !(varlong_at(b@, pos as int) is Overlong),
            k <= 10,
            mult == pow(128, k as nat),
            sum < mult,
            p <= b@.len(),
            pos <= p,
        decreases b@.len() - p,
    {
        if p >= b.len() {
            return Err(FetchError::UnexpectedEndOfVarlong);
        }
        assert(k < 10);
        proof {
            lemma_pow128_step(k as nat);
            assert(mult <= 0x8000_0000_0000_0000u128) by {
                lemma_pow128_bounds();
                vstd::arithmetic::power::lemma_pow_increases(128, k as nat, 9);
            }
        }
        let byte = b[p];
        assert((byte as u128) * mult <= 255 * 0x8000_0000_0000_0000u128) by (nonlinear_arith)
            requires
                byte < 256,
                mult <= 0x8000_0000_0000_0000u128;
        if byte < 128 {
            let total: u128 = sum + (byte as u128) * mult;
            let u: u128 = total % 0x1_0000_0000_0000_0000;
            let half: i128 = (u / 2) as i128 - if u >= 0x8000_0000_0000_0000 { 0x8000_0000_0000_0000i128 } else { 0i128 };
            let v: i128 = if u % 2 == 0 { half } else { -half - 1 };
            return Ok((v as i64, p + 1));
        }
        assert(((byte - 128) as u128) * mult <= 127 * 0x8000_0000_0000_0000u128) by (nonlinear_arith)
            requires
                byte >= 128,
                byte < 256,
                mult <= 0x8000_0000_0000_0000u128;
        assert(sum + ((byte - 128) as u128) * mult < mult * 128) by (nonlinear_arith)
            requires
                byte >= 128,
                byte < 256,
                sum < mult;
        sum = sum + ((byte - 128) as u128) * mult;
        mult = mult * 128;
        k = k + 1;
        p = p + 1;
    }
}

} // verus!
