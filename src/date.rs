//! Observation dates, held as day numbers, and the day ids that store them
//! as offsets from the epoch.
use crate::error::Error;
use chrono::{Datelike, NaiveDate};
use vstd::prelude::*;

verus! {

/// The day number of 2006-03-21, the epoch that day ids count from.
pub const EPOCH_DAY_NUMBER: i32 = 732391;

/// The number of distinct day ids.
pub const DAY_ID_COUNT: i64 = 65536;

/// A calendar date, held as its day number in the proleptic Gregorian
/// calendar, with 0001-01-01 as day 1.
#[derive(Clone, Copy, Debug, PartialEq, Eq, Hash, PartialOrd, Ord, Structural)]
pub struct Date {
    pub day_number: i32,
}

/// The day number of the calendar date `year-month-day`, or `None` where
/// no such date exists.
pub uninterp spec fn calendar_day_number(year: i32, month: u32, day: u32) -> Option<i32>;

/// The (year, month, day) of a day number, or `None` outside the calendar's range.
pub uninterp spec fn calendar_date_of(day_number: i32) -> Option<(i32, u32, u32)>;

/// Relies on chrono's `NaiveDate::from_ymd_opt` and `Datelike::num_days_from_ce`:
/// the day number of a calendar date, `None` for a date that does not exist.
#[verifier::external_body]
fn ymd_to_day_number(year: i32, month: u32, day: u32) -> (r: Option<i32>)
    ensures
        r == calendar_day_number(year, month, day),
{
    NaiveDate::from_ymd_opt(year, month, day).map(|d| d.num_days_from_ce())
}

/// Relies on chrono's `NaiveDate::from_num_days_from_ce_opt`: the calendar
/// date of a day number, `None` outside chrono's range.
#[verifier::external_body]
fn day_number_to_ymd(day_number: i32) -> (r: Option<(i32, u32, u32)>)
    ensures
        r == calendar_date_of(day_number),
{
    NaiveDate::from_num_days_from_ce_opt(day_number).map(|d| (d.year(), d.month(), d.day()))
}

impl Date {
    /// The date `year-month-day`, or `None` where no such date exists.
    pub fn from_ymd(year: i32, month: u32, day: u32) -> (r: Option<Date>)
        ensures
            calendar_day_number(year, month, day) matches Some(n) ==> r == Some(Date { day_number: n }),
            calendar_day_number(year, month, day) is None ==> r is None,
    {
        match ymd_to_day_number(year, month, day) {
            Some(n) => Some(Date { day_number: n }),
            None => None,
        }
    }

    /// The (year, month, day) of this date, or `None` outside the calendar's range.
    pub fn ymd(&self) -> (r: Option<(i32, u32, u32)>)
        ensures
            r == calendar_date_of(self.day_number),
    {
        day_number_to_ymd(self.day_number)
    }
}

/// The offset of a date from the epoch, in days.
pub open spec fn epoch_offset(date: Date) -> int {
    date.day_number - EPOCH_DAY_NUMBER
}

/// A date that a day id can stand for: at or after the epoch, and fewer than
/// 65536 days after it.
pub open spec fn representable(date: Date) -> bool {
    0 <= epoch_offset(date) < DAY_ID_COUNT
}

/// The date that a day id stands for.
pub open spec fn date_of_day_id(day_id: u16) -> Date {
    Date { day_number: (EPOCH_DAY_NUMBER + day_id) as i32 }
}

/// The day id of a date: its offset from the epoch, which must fit in 16 bits.
pub fn date_to_day_id(date: &Date) -> (r: Result<u16, Error>)
    ensures
        representable(*date) ==> r == Ok::<u16, Error>(epoch_offset(*date) as u16),
        !representable(*date) ==> r == Err::<u16, Error>(Error::InvalidDay(epoch_offset(*date) as i64)),
{
    let day: i64 = date.day_number as i64 - EPOCH_DAY_NUMBER as i64;
    if 0 <= day && day < DAY_ID_COUNT {
        Ok(day as u16)
    } else {
        Err(Error::InvalidDay(day))
    }
}

/// The date that a day id stands for.
pub fn day_id_to_date(day_id: u16) -> (r: Date)
    ensures
        r == date_of_day_id(day_id),
{
    Date { day_number: EPOCH_DAY_NUMBER + day_id as i32 }
}

/// Every representable date survives the trip to a day id and back, and the
/// trip from a day id to a date and back gives the same day id.
pub proof fn lemma_day_id_round_trip(date: Date, day_id: u16)
    ensures
        representable(date) ==> date_of_day_id(epoch_offset(date) as u16) == date,
        representable(date_of_day_id(day_id)),
        epoch_offset(date_of_day_id(day_id)) == day_id,
{
}

/// Day ids keep the order of the dates they stand for.
pub proof fn lemma_day_id_order(a: u16, b: u16)
    ensures
        a < b <==> date_of_day_id(a).day_number < date_of_day_id(b).day_number,
{
}

} // verus!
