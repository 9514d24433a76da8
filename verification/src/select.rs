use vstd::prelude::*;
use vstd::string::StringSliceAdditionalSpecFns;
use crate::formats::workfile::{is_split, split};
use crate::time::{parse_time, parse_time_spec};
use crate::types::Work;

verus! {

/// Takes out of `work` a solution worth at least `amount` (a time string,
/// counted at `rate_per_second` iterations per second), leaving the rest as
/// work: the split of `work` for that many iterations.
pub fn select(work: Work, amount: &str, rate_per_second: u64) -> (parts: (Work, Work))
    requires
        parse_time_spec(amount.spec_bytes(), rate_per_second) is Some,
    ensures
        is_split(
            parts.0@,
            parts.1@,
            work@,
            parse_time_spec(amount.spec_bytes(), rate_per_second).unwrap(),
        ),
{
    let iterations = parse_time(amount, rate_per_second);
    split(work, iterations)
}

} // verus!
