//! The fetch path's settings, read from the values of its environment
//! variables (`CHRONIK_FETCH_FROM_FOLLOWERS`,
//! `CHRONIK_FETCH_FOLLOWER_MAX_WAIT_MS`).
use vstd::prelude::*;
use crate::text::chars_of;

verus! {

/// Fetch settings. Follower reads are not acted on by the fetch path; they
/// are kept as configured.
#[derive(Clone, Copy, Debug)]
pub struct FetchHandlerConfig {
    pub allow_follower_reads: bool,
    pub follower_read_max_wait_ms: u64,
    /// This node's id (for the preferred read replica).
    pub node_id: i32,
}

/// Whether `c` is an ASCII decimal digit.
pub open spec fn is_digit(c: char) -> bool {
    '0' <= c <= '9'
}

/// The value of a run of decimal digits.
pub open spec fn digits_value(s: Seq<char>) -> int
    decreases s.len(),
{
    if s.len() == 0 {
        0
    } else {
        digits_value(s.drop_last()) * 10 + (s.last() as int - '0' as int)
    }
}

/// `s` without a leading `+`.
pub open spec fn unsigned_part(s: Seq<char>) -> Seq<char> {
    if s.len() > 0 && s[0] == '+' { s.drop_first() } else { s }
}

/// Whether every character of `s` is a decimal digit.
pub open spec fn all_digits(s: Seq<char>) -> bool {
    forall|i: int| 0 <= i < s.len() ==> is_digit(#[trigger] s[i])
}

/// What `str::parse::<u64>` gives: an optional `+`, then one or more
/// decimal digits whose value fits in a `u64`; `None` for anything else.
pub open spec fn parsed_u64(s: Seq<char>) -> Option<u64> {
    let digits = unsigned_part(s);
    if digits.len() > 0 && all_digits(digits) && digits_value(digits) <= u64::MAX {
        Some(digits_value(digits) as u64)
    } else {
        None
    }
}

/// Parses a `u64` as `str::parse` does (see `parsed_u64`).
pub fn parse_u64(s: &str) -> (r: Option<u64>)
    ensures
        r == parsed_u64(s@),
{
    let cs = chars_of(s);
    let start: usize = if cs.len() > 0 && cs[0] == '+' { 1 } else { 0 };
    let ghost digits = unsigned_part(s@);
    assert(digits =~= s@.subrange(start as int, s@.len() as int));
    if start >= cs.len() {
        return None;
    }
    let mut value: u64 = 0;
    let mut overflow = false;
    let ghost mut exact: int = 0;
    let mut i: usize = start;
    while i < cs.len()
        invariant
            cs@ == s@,
            start <= i <= cs@.len(),
            digits == cs@.subrange(start as int, cs@.len() as int),
            digits == unsigned_part(s@),
            forall|j: int| start <= j < i ==> is_digit(#[trigger] cs@[j]),
            exact == digits_value(cs@.subrange(start as int, i as int)),
            exact >= 0,
            !overflow ==> value == exact,
            overflow ==> exact > u64::MAX,
        decreases cs.len() - i,
    {
        let c = cs[i];
        if !('0' <= c && c <= '9') {
            assert(digits[i - start] == c);
            assert(!is_digit(digits[i - start]));
            assert(!all_digits(digits));
            return None;
        }
        let d = (c as u32 - '0' as u32) as u64;
        proof {
            assert(cs@.subrange(start as int, i + 1).drop_last() =~= cs@.subrange(start as int, i as int));
            exact = exact * 10 + d;
        }
        if !overflow {
            if value > (u64::MAX - d) / 10 {
                overflow = true;
                assert(value * 10 + d > u64::MAX) by (nonlinear_arith)
                    requires value > (u64::MAX - d) / 10, d <= 9;
            } else {
                assert(value * 10 + d <= u64::MAX) by (nonlinear_arith)
                    requires value <= (u64::MAX - d) / 10, d <= 9;
                value = value * 10 + d;
            }
        }
        i += 1;
    }
    assert(cs@.subrange(start as int, cs@.len() as int) == digits);
    assert(all_digits(digits)) by {
        assert forall|j: int| 0 <= j < digits.len() implies is_digit(#[trigger] digits[j]) by {
            assert(digits[j] == cs@[start + j]);
        }
    }
    if overflow { None } else { Some(value) }
}

/// What `str::parse::<bool>` gives, with `default` for anything but `true`
/// and `false`.
pub open spec fn bool_or(s: Seq<char>, default: bool) -> bool {
    if s == seq!['t', 'r', 'u', 'e'] {
        true
    } else if s == seq!['f', 'a', 'l', 's', 'e'] {
        false
    } else {
        default
    }
}

fn parse_bool_or(s: &str, default: bool) -> (b: bool)
    ensures
        b == bool_or(s@, default),
{
    let cs = chars_of(s);
    if cs.len() == 4 && cs[0] == 't' && cs[1] == 'r' && cs[2] == 'u' && cs[3] == 'e' {
        assert(cs@ =~= seq!['t', 'r', 'u', 'e']);
        true
    } else if cs.len() == 5 && cs[0] == 'f' && cs[1] == 'a' && cs[2] == 'l' && cs[3] == 's' && cs[4] == 'e' {
        assert(cs@ =~= seq!['f', 'a', 'l', 's', 'e']);
        false
    } else {
        assert(cs@ != seq!['t', 'r', 'u', 'e']) by {
            if cs@ == seq!['t', 'r', 'u', 'e'] {
                assert(cs@.len() == 4 && cs@[0] == 't' && cs@[1] == 'r' && cs@[2] == 'u' && cs@[3] == 'e');
            }
        }
        assert(cs@ != seq!['f', 'a', 'l', 's', 'e']) by {
            if cs@ == seq!['f', 'a', 'l', 's', 'e'] {
                assert(cs@.len() == 5 && cs@[0] == 'f' && cs@[1] == 'a' && cs@[2] == 'l' && cs@[3] == 's' && cs@[4] == 'e');
            }
        }
        default
    }
}

/// How long a follower read waits by default (ms).
pub const DEFAULT_FOLLOWER_READ_MAX_WAIT_MS: u64 = 1000;

impl FetchHandlerConfig {
    /// The settings from the variables' values (`None` when unset): follower
    /// reads on unless the value reads `false` (an unset or unparsable value
    /// counts as `true`); the wait parsed as a `u64`, 1000 ms when unset or
    /// unparsable; node id 0.
    pub fn from_settings(allow_follower_reads: Option<&str>, follower_read_max_wait_ms: Option<&str>) -> (c: Self)
        ensures
            c.allow_follower_reads == match allow_follower_reads {
                Some(s) => bool_or(s@, true),
                None => true,
            },
            c.follower_read_max_wait_ms == match follower_read_max_wait_ms {
                Some(s) => match parsed_u64(s@) {
                    Some(v) => v,
                    None => DEFAULT_FOLLOWER_READ_MAX_WAIT_MS,
                },
                None => DEFAULT_FOLLOWER_READ_MAX_WAIT_MS,
            },
            c.node_id == 0,
    {
        let allow = match allow_follower_reads {
            Some(s) => parse_bool_or(s, true),
            None => true,
        };
        let wait = match follower_read_max_wait_ms {
            Some(s) => match parse_u64(s) {
                Some(v) => v,
                None => DEFAULT_FOLLOWER_READ_MAX_WAIT_MS,
            },
            None => DEFAULT_FOLLOWER_READ_MAX_WAIT_MS,
        };
        FetchHandlerConfig { allow_follower_reads: allow, follower_read_max_wait_ms: wait, node_id: 0 }
    }
}

} // verus!
