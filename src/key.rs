//! The cache key of a query: a dotted text built from the query's parts.
use vstd::prelude::*;
use crate::error::NativeError;
use crate::protocol::{decimal, decimal_text};
use crate::time::{Instant, SECS_PER_DAY, day_floor, floor_to_day, format_secs, rfc3339_of};

verus! {

/// Seconds added to both ends of the window on the write side, so that a
/// business day that rolls over at 04:00 UTC maps to its calendar day.
pub const WRITE_OFFSET_SECS: i64 = 14400;

/// What is counted.
#[derive(Clone, Copy, Debug, PartialEq, Eq, Structural)]
pub enum Metric {
    Count,
    CountUnique,
}

/// The width of a time bucket.
#[derive(Clone, Copy, Debug, PartialEq, Eq, Structural)]
pub enum Interval {
    Minutely,
    Hourly,
    Daily,
    Weekly,
    Monthly,
    Yearly,
}

/// Which path computes the key: writes shift the window, reads do not.
#[derive(Clone, Copy, Debug, PartialEq, Eq, Structural)]
pub enum KeySide {
    Write,
    Read,
}

pub open spec fn metric_text(m: Metric) -> Seq<char> {
    match m {
        Metric::Count => seq!['c', 'o', 'u', 'n', 't'],
        Metric::CountUnique => seq!['c', 'o', 'u', 'n', 't', '_', 'u', 'n', 'i', 'q', 'u', 'e'],
    }
}

pub open spec fn interval_text(i: Interval) -> Seq<char> {
    match i {
        Interval::Minutely => seq!['m', 'i', 'n', 'u', 't', 'e', 'l', 'y'],
        Interval::Hourly => seq!['h', 'o', 'u', 'r', 'l', 'y'],
        Interval::Daily => seq!['d', 'a', 'i', 'l', 'y'],
        Interval::Weekly => seq!['w', 'e', 'e', 'k', 'l', 'y'],
        Interval::Monthly => seq!['m', 'o', 'n', 't', 'h', 'l', 'y'],
        Interval::Yearly => seq!['y', 'e', 'a', 'r', 'l', 'y'],
    }
}

impl Metric {
    pub fn name(&self) -> (r: &'static str)
        ensures
            r@ == metric_text(*self),
    {
        match self {
            Metric::Count => {
                proof {
                    reveal_strlit("count");
                }
                let r = "count";
                assert(r@ =~= metric_text(*self));
                r
            },
            Metric::CountUnique => {
                proof {
                    reveal_strlit("count_unique");
                }
                let r = "count_unique";
                assert(r@ =~= metric_text(*self));
                r
            },
        }
    }
}

impl Interval {
    pub fn name(&self) -> (r: &'static str)
        ensures
            r@ == interval_text(*self),
    {
        let r = match self {
            Interval::Minutely => {
                proof { reveal_strlit("minutely"); }
                "minutely"
            },
            Interval::Hourly => {
                proof { reveal_strlit("hourly"); }
                "hourly"
            },
            Interval::Daily => {
                proof { reveal_strlit("daily"); }
                "daily"
            },
            Interval::Weekly => {
                proof { reveal_strlit("weekly"); }
                "weekly"
            },
            Interval::Monthly => {
                proof { reveal_strlit("monthly"); }
                "monthly"
            },
            Interval::Yearly => {
                proof { reveal_strlit("yearly"); }
                "yearly"
            },
        };
        assert(r@ =~= interval_text(*self));
        r
    }
}

/// The parts of a query that its cache key is built from.
pub struct CacheQuery {
    pub metric: Metric,
    pub target: Option<String>,
    pub interval: Option<Interval>,
    pub bound: Option<(u64, u64)>,
    pub from: Instant,
    pub to: Instant,
}

pub struct KeyParts {
    pub metric: Metric,
    pub target: Option<Seq<char>>,
    pub interval: Option<Interval>,
    pub bound: Option<(u64, u64)>,
    pub from: int,
    pub to: int,
}

impl View for CacheQuery {
    type V = KeyParts;

    open spec fn view(&self) -> KeyParts {
        KeyParts {
            metric: self.metric,
            target: match self.target {
                Some(t) => Some(t@),
                None => None,
            },
            interval: self.interval,
            bound: self.bound,
            from: self.from.secs as int,
            to: self.to.secs as int,
        }
    }
}

/// The start of the day that a key names for the second `secs`; `None`
/// where the shifted second or its day falls outside `i64`.
pub open spec fn key_day(secs: int, side: KeySide) -> Option<int> {
    let t = match side {
        KeySide::Write => secs + WRITE_OFFSET_SECS,
        KeySide::Read => secs,
    };
    if i64::MIN + SECS_PER_DAY <= t <= i64::MAX {
        Some(day_floor(t))
    } else {
        None
    }
}

/// The RFC 3339 text of the day that a key names for `secs`.
pub open spec fn key_day_text(secs: int, side: KeySide) -> Option<Seq<char>> {
    match key_day(secs, side) {
        Some(d) => rfc3339_of(d),
        None => None,
    }
}

pub open spec fn dotted(s: Option<Seq<char>>) -> Seq<char> {
    match s {
        Some(t) => seq!['.'] + t,
        None => Seq::empty(),
    }
}

/// `<metric>[.<target>][.<interval>][.<from>~<to>].<from day>~<to day>`.
pub open spec fn key_text(q: KeyParts, from_day: Seq<char>, to_day: Seq<char>) -> Seq<char> {
    metric_text(q.metric)
        + dotted(q.target)
        + dotted(match q.interval {
            Some(i) => Some(interval_text(i)),
            None => None,
        })
        + dotted(match q.bound {
            Some((a, b)) => Some(decimal(a as int) + seq!['~'] + decimal(b as int)),
            None => None,
        })
        + seq!['.'] + from_day + seq!['~'] + to_day
}

/// The key of a query on one side; `None` where a day cannot be written.
pub open spec fn cache_key_of(q: KeyParts, side: KeySide) -> Option<Seq<char>> {
    match (key_day_text(q.from, side), key_day_text(q.to, side)) {
        (Some(a), Some(b)) => Some(key_text(q, a, b)),
        _ => None,
    }
}

fn day_text(secs: i64, side: KeySide) -> (r: Option<String>)
    ensures
        match key_day_text(secs as int, side) {
            Some(t) => r is Some && r->0@ == t,
            None => r is None,
        },
{
    let t = match side {
        KeySide::Write => {
            if secs > i64::MAX - WRITE_OFFSET_SECS {
                return None;
            }
            secs + WRITE_OFFSET_SECS
        },
        KeySide::Read => secs,
    };
    if t < i64::MIN + SECS_PER_DAY {
        return None;
    }
    format_secs(floor_to_day(t))
}

impl CacheQuery {
    /// The cache key of the query. Both ends of the window are moved to the
    /// start of their day (after the write-side shift) and written as
    /// RFC 3339. Fails with `InvalidArgument` where a day cannot be written.
    pub fn key(&self, side: KeySide) -> (r: Result<String, NativeError>)
        ensures
            match cache_key_of(self@, side) {
                Some(k) => r is Ok && r->Ok_0@ == k,
                None => r is Err && r->Err_0 is InvalidArgument,
            },
    {
        let from_day = match day_text(self.from.secs, side) {
            Some(t) => t,
            None => return Err(NativeError::InvalidArgument),
        };
        let to_day = match day_text(self.to.secs, side) {
            Some(t) => t,
            None => return Err(NativeError::InvalidArgument),
        };
        proof {
            reveal_strlit(".");
            reveal_strlit("~");
        }
        let mut key = String::new();
        key.append(self.metric.name());
        let ghost k0 = key@;
        match &self.target {
            Some(t) => {
                key.append(".");
                key.append(t.as_str());
            },
            None => {},
        }
        assert(key@ =~= k0 + dotted(self@.target));
        let ghost k1 = key@;
        match self.interval {
            Some(i) => {
                key.append(".");
                key.append(i.name());
            },
            None => {},
        }
        assert(key@ =~= k1 + dotted(match self@.interval {
            Some(i) => Some(interval_text(i)),
            None => None,
        }));
        let ghost k2 = key@;
        match self.bound {
            Some((a, b)) => {
                key.append(".");
                key.append(decimal_text(a as i128).as_str());
                key.append("~");
                key.append(decimal_text(b as i128).as_str());
            },
            None => {},
        }
        assert(key@ =~= k2 + dotted(match self@.bound {
            Some((a, b)) => Some(decimal(a as int) + seq!['~'] + decimal(b as int)),
            None => None,
        }));
        key.append(".");
        key.append(from_day.as_str());
        key.append("~");
        key.append(to_day.as_str());
        assert(key@ =~= key_text(self@, from_day@, to_day@));
        Ok(key)
    }
}

/// Seconds to keep a cached result: 48 hours for a window longer than a
/// day, 5 minutes otherwise.
pub open spec fn ttl_of(from: Instant, to: Instant) -> u64 {
    if (to.secs as int) - (from.secs as int) > SECS_PER_DAY as int { 172800 } else { 300 }
}

pub fn ttl_secs(from: Instant, to: Instant) -> (r: u64)
    ensures
        r == ttl_of(from, to),
{
    if (to.secs as i128) - (from.secs as i128) > SECS_PER_DAY as i128 {
        172800
    } else {
        300
    }
}

} // verus!
