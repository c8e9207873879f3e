//! When something was confirmed: seconds since the epoch, written as a stamp.

use crate::text::{cat2, quoted, quoted_of};
use vstd::prelude::*;

verus! {

/// The first second a calendar date holds: the year -9999 starts with it.
pub const FIRST_SECOND: i64 = -377705116800;

/// The last second a calendar date holds: the year 9999 ends with it.
pub const LAST_SECOND: i64 = 253402300799;

/// `time::OffsetDateTime::from_unix_timestamp`: whether there is a date at a
/// second from the epoch on, which there is up to the end of the year 9999.
#[verifier::external_body]
fn holds_date(secs: i64) -> (r: bool)
    requires
        secs >= 0,
    ensures
        r == (secs <= LAST_SECOND),
{
    time::OffsetDateTime::from_unix_timestamp(secs).is_ok()
}

/// `time::OffsetDateTime::now_utc`, in whole seconds since the epoch: a second a
/// calendar date holds, and nothing else is said of it.
#[verifier::external_body]
fn now_seconds() -> (r: i64)
    ensures
        FIRST_SECOND <= r <= LAST_SECOND,
{
    time::OffsetDateTime::now_utc().unix_timestamp()
}

/// Whether the clock, when asked, gave `secs`.
pub closed spec fn is_clock_second(secs: i64) -> bool {
    call_ensures(now_seconds, (), secs)
}

/// What `time` writes a second as: `[year]-[month]-[day]T[hour]:[minute]:[second]Z`.
pub uninterp spec fn stamp_text(secs: int) -> Option<Seq<char>>;

/// The second `time` reads such text as.
pub uninterp spec fn parsed_stamp(text: Seq<char>) -> Option<int>;

/// `time::OffsetDateTime::format`: the stamp of a second, named [`stamp_text`],
/// which from the epoch on there is for every date, and which
/// `time::PrimitiveDateTime::parse` reads back as the same second.
#[verifier::external_body]
fn format_stamp(secs: i64) -> (r: Option<String>)
    ensures
        match r {
            Some(text) => stamp_text(secs as int) == Some(text@),
            None => stamp_text(secs as int) is None,
        },
        0 <= secs <= LAST_SECOND ==> r is Some,
        0 <= secs <= LAST_SECOND ==> parsed_stamp(r->0@) == Some(secs as int),
{
    let items = time::format_description::parse_borrowed::<2>(
        "[year]-[month]-[day]T[hour]:[minute]:[second]Z",
    ).ok()?;
    time::OffsetDateTime::from_unix_timestamp(secs).ok()?.format(&items).ok()
}

/// `time::PrimitiveDateTime::parse`, read as UTC: the second a stamp is, named
/// [`parsed_stamp`].
#[verifier::external_body]
fn parse_stamp(text: &str) -> (r: Option<i64>)
    ensures
        match r {
            Some(secs) => parsed_stamp(text@) == Some(secs as int),
            None => parsed_stamp(text@) is None,
        },
{
    let items = time::format_description::parse_borrowed::<2>(
        "[year]-[month]-[day]T[hour]:[minute]:[second]Z",
    ).ok()?;
    let at = time::PrimitiveDateTime::parse(text, &items).ok()?;
    Some(at.assume_utc().unix_timestamp())
}

/// When an origin last confirmed a cache entry: whole seconds since the epoch.
#[derive(Debug, Clone, Copy, PartialEq, Eq, Structural)]
pub struct ConfirmedAt {
    secs: i64,
}

impl ConfirmedAt {
    /// The second it is.
    pub closed spec fn second(&self) -> int {
        self.secs as int
    }

    /// The instant `secs` seconds after the epoch, or nothing past what a
    /// calendar date can hold.
    pub fn from_unix_seconds(secs: u64) -> (r: Option<Self>)
        ensures
            match r {
                Some(at) => at.second() == secs && secs <= LAST_SECOND,
                None => secs > LAST_SECOND,
            },
    {
        if secs > i64::MAX as u64 {
            return None;
        }
        if holds_date(secs as i64) {
            Some(ConfirmedAt { secs: secs as i64 })
        } else {
            None
        }
    }

    /// Now, to the second.
    pub fn now() -> (r: Self)
        ensures
            FIRST_SECOND <= r.second() <= LAST_SECOND,
            is_clock_second(r.second() as i64),
    {
        ConfirmedAt { secs: now_seconds() }
    }

    /// Seconds since the epoch.
    pub fn unix_seconds(self) -> (r: i64)
        ensures
            r == self.second(),
    {
        self.secs
    }

    /// The stamp it is written as.
    pub fn to_text(self) -> (r: Option<String>)
        ensures
            match r {
                Some(text) => stamp_text(self.second()) == Some(text@),
                None => stamp_text(self.second()) is None,
            },
            0 <= self.second() <= LAST_SECOND ==> r is Some && parsed_stamp(r->0@) == Some(
                self.second(),
            ),
    {
        format_stamp(self.secs)
    }

    /// Reads a stamp.
    pub fn from_str(text: &str) -> (r: Result<Self, String>)
        ensures
            match r {
                Ok(at) => parsed_stamp(text@) == Some(at.second()),
                Err(why) => parsed_stamp(text@) is None && why@ == quoted(text@)
                    + " is not an RFC 3339 UTC stamp to the second, e.g. 2026-09-16T13:42:23Z"@,
            },
    {
        match parse_stamp(text) {
            Some(secs) => Ok(ConfirmedAt { secs }),
            None => {
                let shown = quoted_of(text);
                Err(
                    cat2(
                        shown.as_str(),
                        " is not an RFC 3339 UTC stamp to the second, e.g. 2026-09-16T13:42:23Z",
                    ),
                )
            },
        }
    }
}

} // verus!
