//! Instants of time, as the time stamps of a log line give them.

use chrono::{Datelike, NaiveDateTime, Timelike};
use vstd::prelude::*;

verus! {

/// The form of a time stamp: year, month, day, hour, minute and second, and
/// after a point the thousandths of a second.
pub const TIMESTAMP_FORMAT: &'static str = "%Y-%m-%d %H:%M:%S%.3f";

/// A date and a time of day in UTC. Two instants compare as their fields do,
/// taken in the order `days`, `secs`, `nanos`.
#[derive(Clone, Copy, Debug, PartialEq, Eq, Structural)]
pub struct Timestamp {
    /// The day, counted from 1 January of year 1, which is day 1.
    pub days: i32,
    /// The whole seconds since midnight.
    pub secs: u32,
    /// The nanoseconds since the last whole second. A leap second is
    /// written as second 59 of its minute with 1_000_000_000 added here.
    pub nanos: u32,
}

impl Timestamp {
    /// Whether `self` is `other` or comes before it.
    pub open spec fn at_or_before(self, other: Timestamp) -> bool {
        ||| self.days < other.days
        ||| self.days == other.days && self.secs < other.secs
        ||| self.days == other.days && self.secs == other.secs && self.nanos <= other.nanos
    }

/// Whether `self` is `other` or comes before it.
    pub fn is_at_or_before(&self, other: &Timestamp) -> (b: bool)
        ensures
            b == self.at_or_before(*other),
    {
        self.days < other.days || (self.days == other.days && (self.secs < other.secs || (
        self.secs == other.secs && self.nanos <= other.nanos)))
    }
}

/// What `chrono::NaiveDateTime::parse_from_str` makes of `text` under
/// `format`: nothing where it reports an error, and else the date and time
/// it returns, as the day counted from 1 January of year 1, the seconds
/// since midnight and the nanoseconds since the last whole second.
pub uninterp spec fn naive_datetime_of(text: Seq<char>, format: Seq<char>) -> Option<(i32, u32, u32)>;

/// Calls `chrono::NaiveDateTime::parse_from_str` and reads the result through
/// `num_days_from_ce`, `num_seconds_from_midnight` and `nanosecond`. The
/// parser reads no clock, locale or time zone, so the same text under the
/// same format gives the same result; the contract claims this and nothing
/// about which texts are accepted.
#[verifier::external_body]
fn parse_naive_datetime(text: &str, format: &str) -> (r: Option<(i32, u32, u32)>)
    requires
        format@ == TIMESTAMP_FORMAT@,
    ensures
        r == naive_datetime_of(text@, format@),
{
    match NaiveDateTime::parse_from_str(text, format) {
        Ok(t) => Some((t.num_days_from_ce(), t.num_seconds_from_midnight(), t.nanosecond())),
        Err(_) => None,
    }
}

/// The instant that `text` writes in the form `TIMESTAMP_FORMAT`, if it
/// writes one.
pub open spec fn timestamp_of(text: Seq<char>) -> Option<Timestamp> {
    match naive_datetime_of(text, TIMESTAMP_FORMAT@) {
        Some((days, secs, nanos)) => Some(Timestamp { days, secs, nanos }),
        None => None,
    }
}

/// Reads a time stamp of the form `TIMESTAMP_FORMAT`.
pub fn parse_time(text: &str) -> (r: Option<Timestamp>)
    ensures
        r == timestamp_of(text@),
{
    match parse_naive_datetime(text, TIMESTAMP_FORMAT) {
        Some((days, secs, nanos)) => Some(Timestamp { days, secs, nanos }),
        None => None,
    }
}

} // verus!
