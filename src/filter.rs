//! Date ranges over instants, and the entries they keep.

use vstd::prelude::*;
use crate::date::{date_of_text, parse_date, Date};

verus! {

/// Seconds in one day.
pub const SECONDS_PER_DAY: i64 = 86400;

/// Instants strictly after `start` and strictly before `end`; a missing bound
/// does not limit that side.
#[derive(Clone, Copy, Debug, PartialEq, Eq, Structural)]
pub struct DateRange {
    pub start: Option<i64>,
    pub end: Option<i64>,
}

pub open spec fn in_range(t: int, r: DateRange) -> bool {
    &&& (match r.start {
        Some(s) => s < t,
        None => true,
    })
    &&& (match r.end {
        Some(e) => t < e,
        None => true,
    })
}

impl DateRange {
    pub open spec fn is_unbounded_spec(self) -> bool {
        self.start is None && self.end is None
    }

    /// The range that matches every instant.
    pub fn unbounded() -> (r: DateRange)
        ensures
            r.is_unbounded_spec(),
    {
        DateRange { start: None, end: None }
    }

    /// Whether no bound is set.
    pub fn is_unbounded(&self) -> (r: bool)
        ensures
            r == self.is_unbounded_spec(),
    {
        self.start.is_none() && self.end.is_none()
    }

    /// Whether the instant `t` lies in the range.
    pub fn contains(&self, t: i64) -> (r: bool)
        ensures
            r == in_range(t as int, *self),
    {
        let after_start = match self.start {
            Some(s) => s < t,
            None => true,
        };
        let before_end = match self.end {
            Some(e) => t < e,
            None => true,
        };
        after_start && before_end
    }
}

/// The unbounded range matches every instant, however far in the past or future.
pub proof fn lemma_unbounded_matches_all(t: int)
    ensures
        in_range(t, DateRange { start: None, end: None }),
{
}

/// The instant at the start of the day written `DD/MM/YYYY`; `None` if the
/// text is not such a day.
pub fn to_timestamp(s: &str) -> (r: Option<i64>)
    ensures
        r is None <==> date_of_text(s@) is None,
        r matches Some(t) ==> date_of_text(s@) matches Some(d) && t as int == d.instant(),
{
    match parse_date(s) {
        None => None,
        Some(d) => Some(d.timestamp()),
    }
}

/// The instant `days` whole days before the start of `today`; `None` if it
/// falls outside the range of `i64`.
pub fn days_back_start(today: Date, days: i64) -> (r: Option<i64>)
    requires
        today.wf(),
    ensures
        ({
            let t = today.instant() - days * SECONDS_PER_DAY;
            r == (if i64::MIN <= t <= i64::MAX { Some(t as i64) } else { None })
        }),
{
    let now = today.timestamp();
    let t: i128 = (now as i128) - (days as i128) * (SECONDS_PER_DAY as i128);
    if i64::MIN as i128 <= t && t <= i64::MAX as i128 {
        Some(t as i64)
    } else {
        None
    }
}

} // verus!
