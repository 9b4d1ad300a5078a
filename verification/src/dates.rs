//! Calendar dates, parsed and printed by `chrono`, handled as day numbers
//! (days from the Common Era, 0001-01-01 being day 1).
use chrono::{Datelike, NaiveDate};
use vstd::prelude::*;

verus! {

/// Day number of -262143-01-01, `chrono::NaiveDate::MIN`.
pub const MIN_DAY: i32 = -95746129;

/// Day number of +262142-12-31, `chrono::NaiveDate::MAX`.
pub const MAX_DAY: i32 = 95745399;

/// What `NaiveDate::parse_from_str(s, "%Y-%m-%d")` yields for the text
/// `s`: the date's day number, or the parse error's message.
pub uninterp spec fn parsed_ymd(s: Seq<char>) -> Result<i32, Seq<char>>;

/// The text `NaiveDate`'s `Display` gives the date with day number `day`.
pub uninterp spec fn date_text(day: i32) -> Seq<char>;

/// Calls `chrono::NaiveDate::parse_from_str(s, "%Y-%m-%d")` and converts
/// the date to its day number (`Datelike::num_days_from_ce`) or the error
/// to its message. Trusted: the outcome is [`parsed_ymd`] of the text, and a
/// parsed date lies between `NaiveDate::MIN` and `NaiveDate::MAX`, the range
/// every `NaiveDate` is in.
#[verifier::external_body]
pub(crate) fn parse_ymd(s: &str) -> (r: Result<i32, String>)
    ensures
        match r {
            Ok(d) => parsed_ymd(s@) == Ok::<i32, Seq<char>>(d) && MIN_DAY <= d <= MAX_DAY,
            Err(e) => parsed_ymd(s@) == Err::<i32, Seq<char>>(e@),
        },
{
    match NaiveDate::parse_from_str(s, "%Y-%m-%d") {
        Ok(d) => Ok(d.num_days_from_ce()),
        Err(e) => Err(e.to_string()),
    }
}

/// Calls `chrono::NaiveDate::from_num_days_from_ce_opt(day)` and renders the
/// date with `Display` (`%Y-%m-%d`). That constructor returns `Some` for
/// every day number from `MIN_DAY` to `MAX_DAY`, which the `requires` keeps
/// to. Trusted: the text is [`date_text`] of the day number.
#[verifier::external_body]
pub(crate) fn format_day(day: i32) -> (r: String)
    requires
        MIN_DAY <= day <= MAX_DAY,
    ensures
        r@ == date_text(day),
{
    NaiveDate::from_num_days_from_ce_opt(day).unwrap().to_string()
}

} // verus!
