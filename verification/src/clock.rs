//! The one place the library reads the ambient clock. Everything downstream
//! takes the reference date as an explicit argument, so the core stays
//! deterministic and testable.

use vstd::prelude::*;
use crate::date::Date;
use chrono::Datelike;

verus! {

/// Relies on `chrono::DateTime::from_timestamp` and the `Datelike`
/// accessors: `month` ranges over 1..=12 and `day` over 1..=31; the year is
/// whatever the clock says and is returned as is. A clock outside chrono's
/// range (before 1970, or beyond its calendar) yields year 0, which the
/// caller rejects; no path panics.
#[verifier::external_body]
fn current_ymd() -> (r: (i64, u32, u32))
    ensures
        1 <= r.1 <= 12,
        1 <= r.2 <= 31,
{
    let secs = match std::time::SystemTime::now().duration_since(std::time::UNIX_EPOCH) {
        Ok(d) => i64::try_from(d.as_secs()).unwrap_or(i64::MAX),
        Err(_) => return (0, 1, 1),
    };
    match chrono::DateTime::from_timestamp(secs, 0) {
        Some(dt) => {
            let d = dt.date_naive();
            (d.year() as i64, d.month(), d.day())
        },
        None => (0, 1, 1),
    }
}

/// The current calendar date, when the clock reports a date the library's
/// calendar can carry (years 1 through 9999).
pub fn current_date() -> (r: Option<Date>)
    ensures
        r matches Some(d) ==> d.wf(),
{
    let (y, m, d) = current_ymd();
    if 1 <= y && y <= 9999 {
        Date::from_ymd(y as u32, m, d)
    } else {
        None
    }
}

} // verus!
