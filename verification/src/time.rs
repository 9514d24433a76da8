use vstd::prelude::*;
use vstd::string::StringSliceAdditionalSpecFns;
use crate::utils::digits::{parse_u64, parse_u64_spec};

verus! {

pub const MINUTE_IN_SECONDS: u64 = 60;

pub const HOUR_IN_SECONDS: u64 = MINUTE_IN_SECONDS * 60;

pub const DAY_IN_SECONDS: u64 = HOUR_IN_SECONDS * 24;

pub const MONTH_IN_SECONDS: u64 = DAY_IN_SECONDS * 30;

pub const YEAR_IN_SECONDS: u64 = MONTH_IN_SECONDS * 12;

/// The number of seconds that a unit suffix stands for: `s` (second), `m`
/// (minute), `h` (hour), `D` (day), `M` (month of thirty days) or `Y` (year of
/// twelve such months).
pub open spec fn unit_seconds(c: u8) -> Option<u64> {
    if c == 115u8 {
        Some(1u64)
    } else if c == 109u8 {
        Some(MINUTE_IN_SECONDS)
    } else if c == 104u8 {
        Some(HOUR_IN_SECONDS)
    } else if c == 68u8 {
        Some(DAY_IN_SECONDS)
    } else if c == 77u8 {
        Some(MONTH_IN_SECONDS)
    } else if c == 89u8 {
        Some(YEAR_IN_SECONDS)
    } else {
        None
    }
}

/// What a time string denotes, or `None` for a string that is not a time: a
/// decimal number followed by a unit suffix is that many units' seconds times
/// `rate` (each product must fit in a `u64`); a string without a unit suffix
/// is a plain decimal number, taken as it is.
pub open spec fn parse_time_spec(s: Seq<u8>, rate: u64) -> Option<u64> {
    if s.len() == 0 {
        None
    } else {
        match unit_seconds(s.last()) {
            Some(unit) => match parse_u64_spec(s.drop_last(), 10) {
                Some(n) => if n * unit <= u64::MAX && n * unit * rate <= u64::MAX {
                    Some((n * unit * rate) as u64)
                } else {
                    None
                },
                None => None,
            },
            None => parse_u64_spec(s, 10),
        }
    }
}

/// `n` units of `seconds` seconds each at `rate` iterations per second, when
/// both the seconds and the iterations fit in a `u64`.
pub open spec fn scaled_time(n: u64, seconds: int, rate: u64) -> Option<u64> {
    if n * seconds <= u64::MAX && n * seconds * rate <= u64::MAX {
        Some((n * seconds * rate) as u64)
    } else {
        None
    }
}

/// What each suffix means: a number followed by `s`, `m`, `h`, `D`, `M` or
/// `Y` is that many seconds, minutes (60 s), hours (3600 s), days (86400 s),
/// months of thirty days (2592000 s) or years of twelve such months
/// (31104000 s), times the rate; without a suffix the number is taken as it
/// is, whatever the rate.
pub proof fn lemma_time_suffixes(s: Seq<u8>, rate: u64)
    requires
        s.len() > 0,
    ensures
        parse_u64_spec(s.drop_last(), 10) matches Some(n) ==> {
            &&& s.last() == 115u8 ==> parse_time_spec(s, rate) == scaled_time(n, 1, rate)
            &&& s.last() == 109u8 ==> parse_time_spec(s, rate) == scaled_time(n, 60, rate)
            &&& s.last() == 104u8 ==> parse_time_spec(s, rate) == scaled_time(n, 3600, rate)
            &&& s.last() == 68u8 ==> parse_time_spec(s, rate) == scaled_time(n, 86400, rate)
            &&& s.last() == 77u8 ==> parse_time_spec(s, rate) == scaled_time(n, 2592000, rate)
            &&& s.last() == 89u8 ==> parse_time_spec(s, rate) == scaled_time(n, 31104000, rate)
        },
        parse_u64_spec(s.drop_last(), 10) is None && (s.last() == 115u8 || s.last() == 109u8
            || s.last() == 104u8 || s.last() == 68u8 || s.last() == 77u8 || s.last() == 89u8)
            ==> parse_time_spec(s, rate) is None,
        !(s.last() == 115u8 || s.last() == 109u8 || s.last() == 104u8 || s.last() == 68u8
            || s.last() == 77u8 || s.last() == 89u8) ==> parse_time_spec(s, rate)
            == parse_u64_spec(s, 10),
{
}

/// A time with a unit suffix is linear in the rate: at rate `rate` it is the
/// same time at one iteration per second, times `rate`.
pub proof fn lemma_time_linear_in_rate(s: Seq<u8>, rate: u64)
    requires
        s.len() > 0,
        s.last() == 115u8 || s.last() == 109u8 || s.last() == 104u8 || s.last() == 68u8
            || s.last() == 77u8 || s.last() == 89u8,
    ensures
        parse_time_spec(s, rate) matches Some(v) ==> parse_time_spec(s, 1) matches Some(w) && v
            == w * rate,
{
    lemma_time_suffixes(s, rate);
    lemma_time_suffixes(s, 1);
    if let Some(n) = parse_u64_spec(s.drop_last(), 10) {
        let secs: int = if s.last() == 115u8 {
            1
        } else if s.last() == 109u8 {
            60
        } else if s.last() == 104u8 {
            3600
        } else if s.last() == 68u8 {
            86400
        } else if s.last() == 77u8 {
            2592000
        } else {
            31104000
        };
        assert(n * secs >= 0) by (nonlinear_arith)
            requires
                secs > 0,
        ;
        assert(n * secs * rate >= n * secs * 1 || rate == 0) by (nonlinear_arith)
            requires
                n * secs >= 0,
        ;
    }
}

/// Reads a time string such as `90s` or `2D` into a number of iterations at
/// `rate_per_second` iterations per second; a bare number is taken as it is.
/// Gives `None` for an empty string, a malformed number, or a product that
/// does not fit in a `u64`.
pub fn try_parse_time(time_string: &str, rate_per_second: u64) -> (r: Option<u64>)
    ensures
        r == parse_time_spec(time_string.spec_bytes(), rate_per_second),
{
    let s = time_string.as_bytes();
    let len = s.len();
    if len == 0 {
        return None;
    }
    let last = s[len - 1];
    let unit: u64 = if last == 115u8 {
        1
    } else if last == 109u8 {
        MINUTE_IN_SECONDS
    } else if last == 104u8 {
        HOUR_IN_SECONDS
    } else if last == 68u8 {
        DAY_IN_SECONDS
    } else if last == 77u8 {
        MONTH_IN_SECONDS
    } else if last == 89u8 {
        YEAR_IN_SECONDS
    } else {
        return parse_u64(s, 10);
    };
    assert(s@.subrange(0, len - 1) =~= s@.drop_last());
    let n = match parse_u64(&s[0..len - 1], 10) {
        Some(n) => n,
        None => {
            return None;
        },
    };
    match n.checked_mul(unit) {
        Some(seconds) => seconds.checked_mul(rate_per_second),
        None => None,
    }
}

/// Reads a time string that `try_parse_time` accepts.
pub fn parse_time(time_string: &str, rate_per_second: u64) -> (r: u64)
    requires
        parse_time_spec(time_string.spec_bytes(), rate_per_second) is Some,
    ensures
        Some(r) == parse_time_spec(time_string.spec_bytes(), rate_per_second),
{
    match try_parse_time(time_string, rate_per_second) {
        Some(r) => r,
        None => 0,
    }
}

} // verus!
