use vstd::prelude::*;

use chrono::Datelike;
use chrono::NaiveDate;

verus! {

// Days are counted as chrono counts them: January 1 of year 1 (CE) of the
// proleptic Gregorian calendar is day 1.

/// The first day that chrono's `NaiveDate` can hold.
pub const FIRST_DAY: i32 = -95746129;

/// The last day that chrono's `NaiveDate` can hold.
pub const LAST_DAY: i32 = 95745399;

/// The first Monday that chrono's `NaiveDate` can hold.
pub const FIRST_MONDAY: i32 = -95746125;

/// Whether chrono's `NaiveDate` can hold the day.
pub open spec fn in_calendar(day: int) -> bool {
    FIRST_DAY <= day <= LAST_DAY
}

/// The day of the week, Monday being 0 and Sunday 6. Day 1 (January 1 of
/// year 1) is a Monday, and days follow each other without gaps.
pub open spec fn spec_weekday(day: int) -> int {
    (day - 1) % 7
}

/// The text of a day in the form `YYYY-MM-DD`, as chrono formats it.
pub uninterp spec fn iso_date_text(day: i32) -> Seq<char>;

/// Calls chrono's `NaiveDate::from_num_days_from_ce_opt`, then
/// `Datelike::weekday` and `Weekday::num_days_from_monday`. Claimed: for a
/// day that chrono can hold, the result is the day's position in its week
/// counted from Monday = 0, which, with day 1 a Monday, is `(day - 1) mod 7`.
#[verifier::external_body]
fn weekday_from_monday(day: i32) -> (wd: u32)
    requires
        in_calendar(day as int),
    ensures
        wd as int == spec_weekday(day as int),
{
    NaiveDate::from_num_days_from_ce_opt(day).unwrap().weekday().num_days_from_monday()
}

/// Calls chrono's `NaiveDate::from_num_days_from_ce_opt`, then formats the
/// date with `"%Y-%m-%d"`. Claimed: the text depends on the day alone; it is
/// named `iso_date_text`, and nothing more is said of it.
#[verifier::external_body]
pub(crate) fn date_text(day: i32) -> (text: String)
    requires
        in_calendar(day as int),
    ensures
        text@ == iso_date_text(day),
{
    NaiveDate::from_num_days_from_ce_opt(day).unwrap().format("%Y-%m-%d").to_string()
}

/// The ISO week number of the date that `text` writes as `YYYY-MM-DD`, as
/// chrono reads it, or `None` when chrono does not read it as a date.
pub uninterp spec fn iso_week_of_text(text: Seq<char>) -> Option<u32>;

/// Calls chrono's `NaiveDate::parse_from_str` with `"%Y-%m-%d"`, then
/// `Datelike::iso_week` and `IsoWeek::week`. Claimed: the result depends on
/// the text alone (it is named `iso_week_of_text`), and a week number is
/// between 1 and 53, as chrono documents `IsoWeek::week`. Which texts parse
/// is left unsaid.
#[verifier::external_body]
pub(crate) fn iso_week_number(text: &String) -> (w: Option<u32>)
    ensures
        w == iso_week_of_text(text@),
        w matches Some(n) ==> 1 <= n <= 53,
{
    match NaiveDate::parse_from_str(text.as_str(), "%Y-%m-%d") {
        Ok(d) => Some(d.iso_week().week()),
        Err(_) => None,
    }
}

/// The Monday that starts the week of `day`.
pub open spec fn spec_monday_of(day: int) -> int {
    day - spec_weekday(day)
}

/// The Monday on or before `day`: the start of its week.
pub fn monday_of(day: i32) -> (monday: i32)
    requires
        FIRST_MONDAY <= day <= LAST_DAY,
    ensures
        monday == spec_monday_of(day as int),
        monday <= day < monday + 7,
        spec_weekday(monday as int) == 0,
        FIRST_MONDAY <= monday,
{
    let wd = weekday_from_monday(day);
    let monday = day - wd as i32;
    assert((monday - 1) % 7 == 0) by (nonlinear_arith)
        requires
            wd as int == (day - 1) % 7,
            monday == day - wd,
    ;
    monday
}

/// The text of the Monday that starts the week of `day`; the key under
/// which that week is saved and archived.
pub fn week_start_text(day: i32) -> (text: String)
    requires
        FIRST_MONDAY <= day <= LAST_DAY,
    ensures
        text@ == iso_date_text(spec_monday_of(day as int) as i32),
{
    let monday = monday_of(day);
    date_text(monday)
}

/// The start of a week is its own Monday: `monday_of` is idempotent.
pub proof fn lemma_monday_of_idempotent(day: int)
    ensures
        spec_monday_of(spec_monday_of(day)) == spec_monday_of(day),
{
    let m = spec_monday_of(day);
    assert((m - 1) % 7 == 0) by (nonlinear_arith)
        requires
            m == day - (day - 1) % 7,
    ;
}

/// Two days of one week share their Monday.
pub proof fn lemma_same_week(day: int, other: int)
    requires
        spec_monday_of(day) <= other < spec_monday_of(day) + 7,
    ensures
        spec_monday_of(other) == spec_monday_of(day),
{
    let m = spec_monday_of(day);
    assert(spec_monday_of(other) == m) by (nonlinear_arith)
        requires
            m == day - (day - 1) % 7,
            m <= other < m + 7,
    ;
}

} // verus!
