//! The envelope's timestamp: RFC 3339, millisecond precision, UTC.

use crate::carry::{is_stamp, is_stamp_text};
use vstd::prelude::*;

verus! {

/// `time::OffsetDateTime::now_utc` and its `format`: now, as
/// `[year]-[month]-[day]T[hour]:[minute]:[second].[subsecond digits:3]Z`. Nothing is
/// said of it: it is what the clock says.
#[verifier::external_body]
fn formatted_now() -> (r: Option<String>) {
    let items = time::format_description::parse_borrowed::<2>(
        "[year]-[month]-[day]T[hour]:[minute]:[second].[subsecond digits:3]Z",
    ).ok()?;
    time::OffsetDateTime::now_utc().format(&items).ok()
}

/// Whether `stamp` is what the clock, when asked, was written as.
pub closed spec fn is_clock_stamp(stamp: Option<String>) -> bool {
    call_ensures(formatted_now, (), stamp)
}

/// The text of a stamp, or the epoch's where there is none or it is spelt otherwise.
pub open spec fn stamp_else_epoch(stamp: Option<String>) -> Seq<char> {
    match stamp {
        Some(text) => if is_stamp_text(text@) {
            text@
        } else {
            "1970-01-01T00:00:00.000Z"@
        },
        None => "1970-01-01T00:00:00.000Z"@,
    }
}

/// A stamp, or the epoch's where there is none: always the one spelling whose stamps
/// sort against each other as text.
pub fn stamp_or_epoch(stamp: Option<String>) -> (r: String)
    ensures
        is_stamp_text(r@),
        r@ == stamp_else_epoch(stamp),
{
    if let Some(text) = stamp {
        if is_stamp(text.as_str()) {
            return text;
        }
    }
    let epoch = "1970-01-01T00:00:00.000Z".to_owned();
    proof {
        reveal_strlit("1970-01-01T00:00:00.000Z");
        assert(is_stamp_text(epoch@));
    }
    epoch
}

/// Now, as an envelope's timestamp: what [`stamp_or_epoch`] makes of the clock's.
pub fn now_rfc3339() -> (r: String)
    ensures
        is_stamp_text(r@),
        exists|stamp: Option<String>| #[trigger]
            is_clock_stamp(stamp) && r@ == stamp_else_epoch(stamp),
{
    let stamp = formatted_now();
    proof {
        assert(is_clock_stamp(stamp));
    }
    stamp_or_epoch(stamp)
}

} // verus!
