//! Points in time, read from and written as RFC 3339 text through chrono.
use vstd::prelude::*;

verus! {

/// Seconds in a day.
pub const SECS_PER_DAY: i64 = 86400;

/// A point in time in UTC: whole seconds since 1970-01-01T00:00:00Z and the
/// nanoseconds past that second.
#[derive(Clone, Copy, Debug, PartialEq, Eq, Structural)]
pub struct Instant {
    pub secs: i64,
    pub nanos: u32,
}

/// The instant that chrono reads from an RFC 3339 text (any offset, turned
/// into UTC), as seconds and nanoseconds.
pub uninterp spec fn utc_instant(s: Seq<char>) -> Option<(i64, u32)>;

/// The RFC 3339 text that chrono writes for a whole second in UTC, when
/// chrono can represent that second.
pub uninterp spec fn rfc3339_of(secs: int) -> Option<Seq<char>>;

pub open spec fn instant_of(p: Option<(i64, u32)>) -> Option<Instant> {
    match p {
        Some((s, n)) => Some(Instant { secs: s, nanos: n }),
        None => None,
    }
}

impl Instant {
    /// `self` is not later than `other`.
    pub open spec fn not_after(self, other: Instant) -> bool {
        self.secs < other.secs || (self.secs == other.secs && self.nanos <= other.nanos)
    }

    pub fn le(&self, other: &Instant) -> (r: bool)
        ensures
            r == self.not_after(*other),
    {
        self.secs < other.secs || (self.secs == other.secs && self.nanos <= other.nanos)
    }

    pub fn from_secs(secs: i64) -> (r: Instant)
        ensures
            r == (Instant { secs, nanos: 0 }),
    {
        Instant { secs, nanos: 0 }
    }
}

/// Relies on chrono's `FromStr for DateTime<Utc>` and on `timestamp` and
/// `timestamp_subsec_nanos`.
#[verifier::external_body]
fn utc_parts(s: &str) -> (r: Option<(i64, u32)>)
    ensures
        r == utc_instant(s@),
{
    s.parse::<chrono::DateTime<chrono::Utc>>().ok().map(|d| (d.timestamp(), d.timestamp_subsec_nanos()))
}

/// Reads an RFC 3339 timestamp.
pub fn parse_instant(s: &str) -> (r: Option<Instant>)
    ensures
        r == instant_of(utc_instant(s@)),
{
    match utc_parts(s) {
        Some((secs, nanos)) => Some(Instant { secs, nanos }),
        None => None,
    }
}

/// Relies on chrono's `DateTime::from_timestamp` and `to_rfc3339`.
#[verifier::external_body]
fn rfc3339_text(secs: i64) -> (r: Option<String>)
    ensures
        match rfc3339_of(secs as int) {
            Some(t) => r is Some && r->0@ == t,
            None => r is None,
        },
{
    chrono::DateTime::from_timestamp(secs, 0).map(|d| d.to_rfc3339())
}

/// Writes the start of a whole second as RFC 3339 text, with offset `+00:00`.
pub fn format_secs(secs: i64) -> (r: Option<String>)
    ensures
        match rfc3339_of(secs as int) {
            Some(t) => r is Some && r->0@ == t,
            None => r is None,
        },
{
    rfc3339_text(secs)
}

/// The start (00:00:00 UTC) of the day that holds the second `secs`.
pub open spec fn day_floor(secs: int) -> int {
    secs - secs % (SECS_PER_DAY as int)
}

pub fn floor_to_day(secs: i64) -> (r: i64)
    requires
        secs >= i64::MIN + SECS_PER_DAY,
    ensures
        r == day_floor(secs as int),
        r <= secs,
        r % SECS_PER_DAY == 0,
{
    let m = secs % SECS_PER_DAY;
    let m = if m < 0 { m + SECS_PER_DAY } else { m };
    assert(m == (secs as int) % (SECS_PER_DAY as int));
    secs - m
}

} // verus!
