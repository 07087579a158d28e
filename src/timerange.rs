use vstd::prelude::*;

verus! {

/// How far back a label or series query reaches by default, and at most: two hours.
pub const RECENT_WINDOW_SECS: i64 = 7200;

/// A half-open time window in seconds since the Unix epoch; a missing bound is
/// unbounded.
#[derive(Clone, Copy, Debug, PartialEq, Eq, Structural)]
pub struct TimeRange {
    pub start: Option<i64>,
    pub end: Option<i64>,
}

/// The window a query runs over at time `now`: from the requested start, but no
/// earlier than two hours before `now` (and from there when no start is given),
/// unbounded toward the present. The requested end is not applied.
pub fn time_range_less_in_a_day(start: Option<i64>, _end: Option<i64>, now: i64) -> (r: TimeRange)
    requires
        now >= i64::MIN + RECENT_WINDOW_SECS,
    ensures
        r.end is None,
        r.start == Some(
            match start {
                Some(s) => if s > now - RECENT_WINDOW_SECS {
                    s
                } else {
                    (now - RECENT_WINDOW_SECS) as i64
                },
                None => (now - RECENT_WINDOW_SECS) as i64,
            },
        ),
{
    let floor = now - RECENT_WINDOW_SECS;
    let s = match start {
        Some(d) => if d > floor {
            d
        } else {
            floor
        },
        None => floor,
    };
    TimeRange { start: Some(s), end: None }
}

} // verus!
