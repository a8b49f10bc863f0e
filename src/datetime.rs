use vstd::prelude::*;
use chrono::Datelike;
use crate::text::{padded_decimal, push_char, push_padded};

verus! {

/// Why a date serial has no calendar rendering.
#[derive(Debug, Clone, Copy, PartialEq, Eq, Structural)]
pub enum DateError {
    /// The date lies outside the representable calendar range.
    DateOutOfRange,
}

/// Day number, counted from 0001-01-01 as day 1, of 1899-12-30: the day
/// that a spreadsheet date serial of 0 stands for.
pub const EXCEL_EPOCH_DAYS_FROM_CE: i64 = 693594;

pub const SECONDS_PER_DAY: u32 = 86400;

/// The proleptic Gregorian (year, month, day) of a day number counted from
/// 0001-01-01 as day 1, or `None` outside the supported range.
pub uninterp spec fn civil_date(days_from_ce: int) -> Option<(int, int, int)>;

/// Relies on chrono's `NaiveDate::from_num_days_from_ce_opt` and the date's
/// `year`, `month` and `day`: the calendar date of a day number, `None` when
/// it is out of range (years beyond about 262,000 either way, so never
/// within 95,000,000 days of the start of the era); a month lies in 1..=12
/// and a day in 1..=31.
#[verifier::external_body]
fn date_from_days(days_from_ce: i32) -> (r: Option<(i32, u32, u32)>)
    ensures
        -95_000_000 <= days_from_ce <= 95_000_000 ==> r is Some,
        match r {
            Some((y, m, d)) => civil_date(days_from_ce as int) == Some(
                (y as int, m as int, d as int),
            ) && 1 <= m <= 12 && 1 <= d <= 31,
            None => civil_date(days_from_ce as int) is None,
        },
{
    chrono::NaiveDate::from_num_days_from_ce_opt(days_from_ce).map(|d| (d.year(), d.month(), d.day()))
}

/// A year as four zero-padded digits, with a sign outside 0..=9999.
pub open spec fn year_text(y: int) -> Seq<char> {
    if 0 <= y <= 9999 {
        padded_decimal(y as nat, 4)
    } else if y < 0 {
        seq!['-'] + padded_decimal((-y) as nat, 4)
    } else {
        seq!['+'] + padded_decimal(y as nat, 4)
    }
}

/// `YYYY-MM-DD HH:MM:SS` for a date and a second within that day.
pub open spec fn datetime_text(y: int, m: nat, d: nat, second_of_day: nat) -> Seq<char> {
    year_text(y) + seq!['-'] + padded_decimal(m, 2) + seq!['-'] + padded_decimal(d, 2) + seq![' ']
        + padded_decimal(second_of_day / 3600, 2) + seq![':'] + padded_decimal(
        (second_of_day % 3600) / 60,
        2,
    ) + seq![':'] + padded_decimal(second_of_day % 60, 2)
}

/// The rendering of a whole-day count from the epoch plus a number of
/// seconds, or `None` where the date is out of range.
pub open spec fn serial_datetime(days: int, seconds: nat) -> Option<Seq<char>> {
    let target = EXCEL_EPOCH_DAYS_FROM_CE + days + seconds / (SECONDS_PER_DAY as nat);
    if target < i32::MIN || target > i32::MAX {
        None
    } else {
        match civil_date(target) {
            Some((y, m, d)) => Some(
                datetime_text(y, m as nat, d as nat, seconds % (SECONDS_PER_DAY as nat)),
            ),
            None => None,
        }
    }
}

/// Renders a calendar date (as the calendar computation returned it) and a
/// second within that day as `YYYY-MM-DD HH:MM:SS`.
pub fn datetime_from_civil(civil: Option<(i32, u32, u32)>, second_of_day: u32) -> (r: Result<
    String,
    DateError,
>)
    requires
        second_of_day < SECONDS_PER_DAY,
    ensures
        match civil {
            Some((y, m, d)) => r == Ok::<String, DateError>(r->Ok_0) && r->Ok_0@ == datetime_text(
                y as int,
                m as nat,
                d as nat,
                second_of_day as nat,
            ),
            None => r == Err::<String, DateError>(DateError::DateOutOfRange),
        },
{
    match civil {
        None => Err(DateError::DateOutOfRange),
        Some((y, m, d)) => {
            let mut s = String::new();
            if y < 0 {
                push_char(&mut s, '-');
                push_padded(&mut s, (-(y as i64)) as u64, 4);
            } else if y > 9999 {
                push_char(&mut s, '+');
                push_padded(&mut s, y as u64, 4);
            } else {
                push_padded(&mut s, y as u64, 4);
            }
            let ghost ytext = s@;
            push_char(&mut s, '-');
            push_padded(&mut s, m as u64, 2);
            push_char(&mut s, '-');
            push_padded(&mut s, d as u64, 2);
            push_char(&mut s, ' ');
            push_padded(&mut s, (second_of_day / 3600) as u64, 2);
            push_char(&mut s, ':');
            push_padded(&mut s, ((second_of_day % 3600) / 60) as u64, 2);
            push_char(&mut s, ':');
            push_padded(&mut s, (second_of_day % 60) as u64, 2);
            assert(ytext =~= year_text(y as int));
            assert(s@ =~= datetime_text(y as int, m as nat, d as nat, second_of_day as nat));
            Ok(s)
        },
    }
}

/// Converts a date serial, split into whole days since 1899-12-30 and a
/// number of seconds into the day (a full day or more carries over), into
/// a `YYYY-MM-DD HH:MM:SS` timestamp.
pub fn serial_to_datetime(days: i64, seconds: u32) -> (r: Result<String, DateError>)
    ensures
        -94_000_000 <= days <= 94_000_000 ==> r is Ok,
        match serial_datetime(days as int, seconds as nat) {
            Some(t) => r == Ok::<String, DateError>(r->Ok_0) && r->Ok_0@ == t,
            None => r == Err::<String, DateError>(DateError::DateOutOfRange),
        },
{
    if days < -0x100_0000_0000 || days > 0x100_0000_0000 {
        return Err(DateError::DateOutOfRange);
    }
    let target: i64 = EXCEL_EPOCH_DAYS_FROM_CE + days + (seconds / SECONDS_PER_DAY) as i64;
    if target < i32::MIN as i64 || target > i32::MAX as i64 {
        return Err(DateError::DateOutOfRange);
    }
    let civil = date_from_days(target as i32);
    datetime_from_civil(civil, seconds % SECONDS_PER_DAY)
}

} // verus!
