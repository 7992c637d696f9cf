//! Timestamps as minutes since the start of 1970.
use vstd::prelude::*;
use vstd::utf8::encode_utf8;

use crate::digits::{
    are_digits, is_digit, lemma_number_grows, lemma_run_end, lemma_run_is_read, lemma_runs_within,
    number, numbers_within, read_run, run_end, run_number, written,
};
use crate::error::{invalid_data, DataError};

verus! {

/// The minutes of a day.
pub const MINUTES_PER_DAY: i64 = 24 * 60;

/// Division that rounds toward zero.
pub open spec fn quotient(a: int, b: int) -> int {
    if a >= 0 {
        a / b
    } else {
        -((-a) / b)
    }
}

/// The year that a month is counted in when years start in March.
pub open spec fn march_year(year: int, month: int) -> int {
    if month <= 2 {
        year - 1
    } else {
        year
    }
}

/// How many months after March.
pub open spec fn months_after_march(month: int) -> int {
    if month > 2 {
        month - 3
    } else {
        month + 9
    }
}

/// How many days of a year that starts in March are over on this day.
pub open spec fn days_after_march(month: int, day: int) -> int {
    quotient(153 * months_after_march(month) + 2, 5) + day - 1
}

/// How many days are over when March of this year starts, counted from March of the year 0: one
/// more in each fourth year, but not in each hundredth, but again in each four hundredth.
pub open spec fn days_before_march(year: int) -> int {
    365 * year + year / 4 - year / 100 + year / 400
}

/// The number of the day, where the first day of 1970 has the number 0.
pub open spec fn civil_days(year: int, month: int, day: int) -> int {
    days_before_march(march_year(year, month)) + days_after_march(month, day) - 719468
}

/// A number of 32 bits with a sign.
pub open spec fn fits_i32(n: int) -> bool {
    i32::MIN <= n <= i32::MAX
}

/// The numbers that have to be computed to number the day can be held.
pub open spec fn civil_in_range(year: int, month: int, day: int) -> bool {
    let y = march_year(year, month);
    let doy = days_after_march(month, day);
    &&& fits_i32(y)
    &&& y < 0 ==> fits_i32(y - 399)
    &&& fits_i32(153 * months_after_march(month))
    &&& fits_i32(153 * months_after_march(month) + 2)
    &&& fits_i32(doy + 1)
    &&& fits_i32(doy)
    &&& fits_i32((y % 400) * 365 + (y % 400) / 4 - (y % 400) / 100 + doy)
    &&& fits_i32((y / 400) * 146097)
    &&& fits_i32(civil_days(year, month, day) + 719468)
    &&& fits_i32(civil_days(year, month, day))
}

/// The number of the day.
pub fn days_from_civil(year: i32, month: i32, day: i32) -> (days: i64)
    requires
        civil_in_range(year as int, month as int, day as int),
    ensures
        days == civil_days(year as int, month as int, day as int),
{
    let year = year - if month <= 2 {
        1
    } else {
        0
    };
    let era = if year >= 0 {
        year / 400
    } else {
        (year - 399) / 400
    };
    assert(era == year as int / 400) by {
        let y = year as int;
        if y < 0 {
            assert(quotient(y - 399, 400) == y / 400);
        }
    }
    let yoe = year - era * 400;
    assert(yoe == year as int % 400);
    let month_prime = if month > 2 {
        month - 3
    } else {
        month + 9
    };
    let doy = (153 * month_prime + 2) / 5 + day - 1;
    let doe = yoe * 365 + yoe / 4 - yoe / 100 + doy;
    proof {
        lemma_eras(year as int);
    }
    (era * 146097 + doe - 719468) as i64
}

/// Years repeat after four hundred.
proof fn lemma_eras(y: int)
    ensures
        days_before_march(y) == (y / 400) * 146097 + (y % 400) * 365 + (y % 400) / 4 - (y % 400)
            / 100,
{
    let e = y / 400;
    let r = y % 400;
    assert(y == 400 * e + r);
    assert(y / 4 == 100 * e + r / 4);
    assert(y / 100 == 4 * e + r / 100);
}

/// Whether the year has a 29th of February.
pub open spec fn is_leap(year: int) -> bool {
    year % 4 == 0 && (year % 100 != 0 || year % 400 == 0)
}

/// How many days the month has.
pub open spec fn month_length(year: int, month: int) -> int {
    if month == 2 {
        if is_leap(year) {
            29
        } else {
            28
        }
    } else if month == 4 || month == 6 || month == 9 || month == 11 {
        30
    } else {
        31
    }
}

/// Days are numbered by the Gregorian calendar: from the first of January 1970, day by day, month
/// by month and year by year.
pub proof fn lemma_days_follow_the_calendar(year: int, month: int, day: int)
    requires
        1 <= month <= 12,
    ensures
        civil_days(1970, 1, 1) == 0,
        civil_days(year, month, day + 1) == civil_days(year, month, day) + 1,
        month < 12 ==> civil_days(year, month + 1, day) == civil_days(year, month, day)
            + month_length(year, month),
        month == 12 ==> civil_days(year + 1, 1, day) == civil_days(year, 12, day) + 31,
{
    assert(days_before_march(year) == days_before_march(year - 1) + 365 + (if is_leap(year) {
        1int
    } else {
        0int
    })) by {
        lemma_leap_steps(year);
    }
}

proof fn lemma_leap_steps(year: int)
    ensures
        year / 4 == (year - 1) / 4 + (if year % 4 == 0 {
            1int
        } else {
            0int
        }),
        year / 100 == (year - 1) / 100 + (if year % 100 == 0 {
            1int
        } else {
            0int
        }),
        year / 400 == (year - 1) / 400 + (if year % 400 == 0 {
            1int
        } else {
            0int
        }),
        year % 400 == 0 ==> year % 100 == 0,
        year % 100 == 0 ==> year % 4 == 0,
{
}

/// A component is one digit or more with the delimiter behind.
pub open spec fn has_component(bytes: Seq<u8>, from: int, delimiter: u8) -> bool {
    let end = run_end(bytes, from);
    from < end < bytes.len() && bytes[end] == delimiter
}

/// The last component is one digit or more with nothing behind.
pub open spec fn has_tail(bytes: Seq<u8>, from: int) -> bool {
    from < run_end(bytes, from) && run_end(bytes, from) == bytes.len()
}

/// Reads digits from `idx` on and skips the delimiter behind them.
pub fn parse_component(bytes: &[u8], idx: &mut usize, delimiter: u8) -> (read: Result<
    u32,
    DataError,
>)
    requires
        run_number(bytes@, *old(idx) as int) <= u32::MAX,
    ensures
        match read {
            Ok(value) => {
                &&& has_component(bytes@, *old(idx) as int, delimiter)
                &&& value == run_number(bytes@, *old(idx) as int)
                &&& *final(idx) == run_end(bytes@, *old(idx) as int) + 1
            },
            Err(error) => {
                &&& !has_component(bytes@, *old(idx) as int, delimiter)
                &&& error.message@ == "invalid datetime component"@
                &&& *final(idx) == run_end(bytes@, *old(idx) as int)
            },
        },
{
    let start = *idx;
    let value = read_digits(bytes, idx);
    if *idx == start || *idx >= bytes.len() || bytes[*idx] != delimiter {
        return Err(invalid_data("invalid datetime component".to_owned()));
    }
    *idx += 1;
    Ok(value)
}

/// Reads digits from `idx` to the end.
pub fn parse_tail_component(bytes: &[u8], idx: &mut usize) -> (read: Result<u32, DataError>)
    requires
        run_number(bytes@, *old(idx) as int) <= u32::MAX,
    ensures
        *final(idx) == run_end(bytes@, *old(idx) as int),
        match read {
            Ok(value) => {
                &&& has_tail(bytes@, *old(idx) as int)
                &&& value == run_number(bytes@, *old(idx) as int)
            },
            Err(error) => {
                &&& !has_tail(bytes@, *old(idx) as int)
                &&& error.message@ == "invalid datetime component"@
            },
        },
{
    let start = *idx;
    let value = read_digits(bytes, idx);
    if *idx != bytes.len() || *idx == start {
        return Err(invalid_data("invalid datetime component".to_owned()));
    }
    Ok(value)
}

/// Reads a run of digits.
fn read_digits(bytes: &[u8], idx: &mut usize) -> (value: u32)
    requires
        run_number(bytes@, *old(idx) as int) <= u32::MAX,
    ensures
        *final(idx) == run_end(bytes@, *old(idx) as int),
        *old(idx) <= *final(idx),
        value == run_number(bytes@, *old(idx) as int),
{
    let ghost start = *idx as int;
    let mut value: u32 = 0;
    proof {
        lemma_run_end(bytes@, start);
    }
    while *idx < bytes.len() && 48 <= bytes[*idx] && bytes[*idx] <= 57
        invariant
            run_number(bytes@, start) <= u32::MAX,
            0 <= start <= *idx <= run_end(bytes@, start),
            run_end(bytes@, start) == run_end(bytes@, *idx as int),
            forall|i: int| start <= i < run_end(bytes@, start) ==> is_digit(#[trigger] bytes@[i]),
            value == number(bytes@, start, *idx as int),
        decreases bytes@.len() - *idx,
    {
        proof {
            lemma_run_end(bytes@, *idx as int + 1);
            lemma_number_grows(bytes@, start, *idx as int + 1, run_end(bytes@, start));
            lemma_number_grows(bytes@, start, *idx as int, run_end(bytes@, start));
        }
        value = value * 10 + (bytes[*idx] - 48) as u32;
        *idx += 1;
    }
    value
}

/// Where the component behind the one at `from` starts.
pub open spec fn after_component(bytes: Seq<u8>, from: int) -> int {
    run_end(bytes, from) + 1
}

/// Where the day starts.
pub open spec fn day_at(bytes: Seq<u8>) -> int {
    after_component(bytes, 0)
}

/// Where the year starts.
pub open spec fn year_at(bytes: Seq<u8>) -> int {
    after_component(bytes, day_at(bytes))
}

/// Where the hour starts.
pub open spec fn hour_at(bytes: Seq<u8>) -> int {
    after_component(bytes, year_at(bytes))
}

/// Where the minute starts.
pub open spec fn minute_at(bytes: Seq<u8>) -> int {
    after_component(bytes, hour_at(bytes))
}

/// The text is written as `M/D/Y H:MM`.
pub open spec fn has_form(bytes: Seq<u8>) -> bool {
    &&& has_component(bytes, 0, 47)
    &&& has_component(bytes, day_at(bytes), 47)
    &&& has_component(bytes, year_at(bytes), 32)
    &&& has_component(bytes, hour_at(bytes), 58)
    &&& has_tail(bytes, minute_at(bytes))
}

/// The month, the day, the hour and the minute are such as can occur.
pub open spec fn can_occur(bytes: Seq<u8>) -> bool {
    &&& 1 <= run_number(bytes, 0) <= 12
    &&& 1 <= run_number(bytes, day_at(bytes)) <= 31
    &&& run_number(bytes, hour_at(bytes)) <= 23
    &&& run_number(bytes, minute_at(bytes)) <= 59
}

/// The text is a timestamp.
pub open spec fn is_datetime(bytes: Seq<u8>) -> bool {
    has_form(bytes) && can_occur(bytes)
}

/// The year that is meant: up to 69 one of this century, above one counted from 1900. The number is
/// taken as one of 32 bits with a sign.
pub open spec fn full_year(year: int) -> int {
    if year <= 69 {
        2000 + year
    } else if year <= i32::MAX {
        1900 + year
    } else {
        1900 + year - 0x1_0000_0000
    }
}

/// The number of the day.
pub open spec fn day_number(bytes: Seq<u8>) -> int {
    civil_days(
        full_year(run_number(bytes, year_at(bytes))),
        run_number(bytes, 0),
        run_number(bytes, day_at(bytes)),
    )
}

/// The number of the minute.
pub open spec fn datetime_key(bytes: Seq<u8>) -> int {
    day_number(bytes) * MINUTES_PER_DAY + run_number(bytes, hour_at(bytes)) * 60 + run_number(
        bytes,
        minute_at(bytes),
    )
}

/// The numbers that have to be computed to read the timestamp can be held.
pub open spec fn datetime_in_range(bytes: Seq<u8>) -> bool {
    &&& run_number(bytes, 0) <= u32::MAX
    &&& has_component(bytes, 0, 47) ==> {
        &&& run_number(bytes, day_at(bytes)) <= u32::MAX
        &&& has_component(bytes, day_at(bytes), 47) ==> {
            &&& run_number(bytes, year_at(bytes)) <= u32::MAX
            &&& has_component(bytes, year_at(bytes), 32) ==> {
                &&& run_number(bytes, hour_at(bytes)) <= u32::MAX
                &&& has_component(bytes, hour_at(bytes), 58) ==> run_number(
                    bytes,
                    minute_at(bytes),
                ) <= u32::MAX
            }
        }
    }
    &&& is_datetime(bytes) ==> {
        &&& fits_i32(full_year(run_number(bytes, year_at(bytes))))
        &&& civil_in_range(
            full_year(run_number(bytes, year_at(bytes))),
            run_number(bytes, 0),
            run_number(bytes, day_at(bytes)),
        )
    }
}

/// What is said of a text that is no timestamp.
pub open spec fn datetime_fault(raw: Seq<char>) -> Seq<char> {
    if has_form(encode_utf8(raw)) {
        "invalid datetime: "@ + raw
    } else {
        "invalid datetime component"@
    }
}

/// Whether the number of the digits from `from` on fits.
fn component_fits(bytes: &[u8], from: usize) -> (fits: bool)
    ensures
        fits == (run_number(bytes@, from as int) <= u32::MAX),
{
    read_run(bytes, from, u32::MAX as u64).1.is_some()
}

/// Whether the day can be numbered.
#[verifier::rlimit(40)]
fn date_in_range(year: i64, month: u32, day: u32) -> (fits: bool)
    requires
        1 <= month <= 12,
        1 <= day <= 31,
        -0x1_0000_0000 <= year <= 0x1_0000_0000,
    ensures
        fits == (fits_i32(year as int) && civil_in_range(year as int, month as int, day as int)),
{
    let low = i32::MIN as i64;
    let high = i32::MAX as i64;
    if year < low || year > high {
        return false;
    }
    let y = if month <= 2 {
        year - 1
    } else {
        year
    };
    if y < low || (y < 0 && y - 399 < low) {
        return false;
    }
    let era = if y >= 0 {
        y / 400
    } else {
        (y - 399) / 400
    };
    assert(era == y as int / 400) by {
        if y < 0 {
            assert(quotient(y - 399, 400) == y as int / 400);
        }
    }
    let yoe = y - era * 400;
    let month_prime: i64 = if month > 2 {
        month as i64 - 3
    } else {
        month as i64 + 9
    };
    let doy = (153 * month_prime + 2) / 5 + day as i64 - 1;
    let doe = yoe * 365 + yoe / 4 - yoe / 100 + doy;
    let days = era * 146097 + doe;
    proof {
        lemma_eras(y as int);
    }
    low <= era * 146097 && era * 146097 <= high && low + 719468 <= days && days <= high
}

/// Reads a timestamp; `None` where it takes a number that is too large.
pub fn checked_datetime_key(raw: &str) -> (read: Result<Option<i64>, DataError>)
    ensures
        match read {
            Ok(Some(key)) => datetime_in_range(encode_utf8(raw@)) && is_datetime(encode_utf8(raw@))
                && key == datetime_key(encode_utf8(raw@)),
            Ok(None) => !datetime_in_range(encode_utf8(raw@)),
            Err(error) => datetime_in_range(encode_utf8(raw@)) && !is_datetime(encode_utf8(raw@))
                && error.message@ == datetime_fault(raw@),
        },
{
    let bytes = raw.as_bytes();
    let ghost b = encode_utf8(raw@);
    let mut idx: usize = 0;
    if !component_fits(bytes, idx) {
        return Ok(None);
    }
    let month = match parse_component(bytes, &mut idx, 47) {
        Ok(value) => value,
        Err(error) => return Err(error),
    };
    if !component_fits(bytes, idx) {
        return Ok(None);
    }
    let day = match parse_component(bytes, &mut idx, 47) {
        Ok(value) => value,
        Err(error) => return Err(error),
    };
    if !component_fits(bytes, idx) {
        return Ok(None);
    }
    let year = match parse_component(bytes, &mut idx, 32) {
        Ok(value) => value,
        Err(error) => return Err(error),
    };
    if !component_fits(bytes, idx) {
        return Ok(None);
    }
    let hour = match parse_component(bytes, &mut idx, 58) {
        Ok(value) => value,
        Err(error) => return Err(error),
    };
    if !component_fits(bytes, idx) {
        return Ok(None);
    }
    let minute = match parse_tail_component(bytes, &mut idx) {
        Ok(value) => value,
        Err(error) => return Err(error),
    };
    assert(has_form(b));
    if month < 1 || month > 12 || day < 1 || day > 31 || hour > 23 || minute > 59 {
        return Err(invalid_data("invalid datetime: ".to_owned().concat(raw)));
    }
    assert(is_datetime(b));
    let full_year: i64 = if year <= 69 {
        2000 + year as i64
    } else if year <= i32::MAX as u32 {
        1900 + year as i64
    } else {
        1900 + year as i64 - 0x1_0000_0000
    };
    if !date_in_range(full_year, month, day) {
        return Ok(None);
    }
    let days = days_from_civil(full_year as i32, month as i32, day as i32);
    Ok(Some(days * MINUTES_PER_DAY + (hour * 60 + minute) as i64))
}

/// Reads a timestamp.
pub fn parse_datetime_key(raw: &str) -> (read: Result<i64, DataError>)
    requires
        datetime_in_range(encode_utf8(raw@)),
    ensures
        match read {
            Ok(key) => is_datetime(encode_utf8(raw@)) && key == datetime_key(encode_utf8(raw@)),
            Err(error) => !is_datetime(encode_utf8(raw@)) && error.message@ == datetime_fault(raw@),
        },
{
    match checked_datetime_key(raw) {
        Ok(Some(key)) => Ok(key),
        Ok(None) => {
            assert(false);
            Ok(0)
        },
        Err(error) => Err(error),
    }
}

/// The days of the months and the leap years: the next day has the next number, the same day of
/// the next month is 31, 30 or, in February, 28 or 29 days later, and the first of January 1970
/// has the number 0.
pub proof fn lemma_calendar(year: int, month: int, day: int)
    requires
        1 <= month <= 12,
    ensures
        civil_days(1970, 1, 1) == 0,
        civil_days(year, month, day + 1) == civil_days(year, month, day) + 1,
        month == 1 || month == 3 || month == 5 || month == 7 || month == 8 || month == 10
            ==> civil_days(year, month + 1, day) == civil_days(year, month, day) + 31,
        month == 12 ==> civil_days(year + 1, 1, day) == civil_days(year, 12, day) + 31,
        month == 4 || month == 6 || month == 9 || month == 11 ==> civil_days(year, month + 1, day)
            == civil_days(year, month, day) + 30,
        year % 4 != 0 ==> civil_days(year, 3, day) == civil_days(year, 2, day) + 28,
        year % 4 == 0 && year % 100 != 0 ==> civil_days(year, 3, day) == civil_days(year, 2, day)
            + 29,
        year % 100 == 0 && year % 400 != 0 ==> civil_days(year, 3, day) == civil_days(year, 2, day)
            + 28,
        year % 400 == 0 ==> civil_days(year, 3, day) == civil_days(year, 2, day) + 29,
{
    lemma_days_follow_the_calendar(year, month, day);
    lemma_days_follow_the_calendar(year, 2, day);
    lemma_leap_steps(year);
}

/// A day stands between the turns of its year.
proof fn lemma_day_of_year(year: int, month: int, day: int)
    requires
        1 <= month <= 12,
        1 <= day <= 31,
    ensures
        civil_days(year, 1, 1) <= civil_days(year, month, day) < civil_days(year + 1, 1, 1),
{
    lemma_leap_steps(year);
}

/// `text` is written as `month/day/year hour:minute`, each of them one digit or more.
pub open spec fn is_stamp(
    text: Seq<u8>,
    month: Seq<u8>,
    day: Seq<u8>,
    year: Seq<u8>,
    hour: Seq<u8>,
    minute: Seq<u8>,
) -> bool {
    &&& are_digits(month) && are_digits(day) && are_digits(year) && are_digits(hour) && are_digits(
        minute,
    )
    &&& text == month + seq![47u8] + day + seq![47u8] + year + seq![32u8] + hour + seq![58u8]
        + minute
}

proof fn lemma_stamp_runs(
    text: Seq<u8>,
    month: Seq<u8>,
    day: Seq<u8>,
    year: Seq<u8>,
    hour: Seq<u8>,
    minute: Seq<u8>,
)
    requires
        is_stamp(text, month, day, year, hour, minute),
    ensures
        has_form(text),
        run_number(text, 0) == written(month),
        run_number(text, day_at(text)) == written(day),
        run_number(text, year_at(text)) == written(year),
        run_number(text, hour_at(text)) == written(hour),
        run_number(text, minute_at(text)) == written(minute),
{
    let a = month.len() as int;
    let b = a + 1 + day.len();
    let c = b + 1 + year.len();
    let d = c + 1 + hour.len();
    assert(text.subrange(0, a) =~= month);
    assert(text[a] == 47);
    lemma_run_is_read(text, 0, month);
    assert(text.subrange(a + 1, b) =~= day);
    assert(text[b] == 47);
    lemma_run_is_read(text, a + 1, day);
    assert(text.subrange(b + 1, c) =~= year);
    assert(text[c] == 32);
    lemma_run_is_read(text, b + 1, year);
    assert(text.subrange(c + 1, d) =~= hour);
    assert(text[d] == 58);
    lemma_run_is_read(text, c + 1, hour);
    assert(text.subrange(d + 1, text.len() as int) =~= minute);
    lemma_run_is_read(text, d + 1, minute);
}

/// What a timestamp means: the month is from 1 to 12, the day from 1 to 31, the hour up to 23 and
/// the minute up to 59; a year up to 69 is one of the years from 2000 on, and one above is counted
/// from 1900. The number of the minute is that of the day, 1440 for each, and 60 for each hour.
/// Years of up to seven digits are not too large.
pub proof fn lemma_stamp_meaning(
    text: Seq<u8>,
    month: Seq<u8>,
    day: Seq<u8>,
    year: Seq<u8>,
    hour: Seq<u8>,
    minute: Seq<u8>,
)
    requires
        is_stamp(text, month, day, year, hour, minute),
    ensures
        is_datetime(text) <==> 1 <= written(month) <= 12 && 1 <= written(day) <= 31 && written(hour)
            <= 23 && written(minute) <= 59,
        ({
            let y = written(year);
            let since_hours = written(hour) * 60 + written(minute);
            &&& 0 <= y <= 69 ==> datetime_key(text) == civil_days(
                2000 + y,
                written(month),
                written(day),
            ) * 1440 + since_hours
            &&& 70 <= y <= 0x7fff_ffff ==> datetime_key(text) == civil_days(
                1900 + y,
                written(month),
                written(day),
            ) * 1440 + since_hours
            &&& 0x7fff_ffff < y <= 0xffff_ffff ==> datetime_key(text) == civil_days(
                1900 + y - 0x1_0000_0000,
                written(month),
                written(day),
            ) * 1440 + since_hours
            &&& is_datetime(text) && y < 5_000_000 ==> datetime_in_range(text)
        }),
{
    lemma_stamp_runs(text, month, day, year, hour, minute);
    let y = written(year);
    lemma_run_is_nonnegative(text, year_at(text));
    if is_datetime(text) && y < 5_000_000 {
        let full = full_year(y);
        let m = written(month);
        let d = written(day);
        let z = march_year(full, m);
        lemma_eras(z);
        assert(0 <= z < 5_002_000);
        assert(0 <= z / 400 <= 12_505);
        assert(0 <= z % 400 < 400);
        assert(0 <= days_after_march(m, d) <= 400);
        assert(civil_in_range(full, m, d));
    }
}

proof fn lemma_run_is_nonnegative(bytes: Seq<u8>, from: int)
    requires
        0 <= from,
    ensures
        run_number(bytes, from) >= 0,
{
    lemma_run_end(bytes, from);
    lemma_number_grows(bytes, from, from, run_end(bytes, from));
}

/// Nothing else is a timestamp, or has the form of one.
pub proof fn lemma_only_stamps(text: Seq<u8>)
    requires
        is_datetime(text) || has_form(text),
    ensures
        exists|month: Seq<u8>, day: Seq<u8>, year: Seq<u8>, hour: Seq<u8>, minute: Seq<u8>| #[trigger]
            is_stamp(text, month, day, year, hour, minute),
{
    let a = run_end(text, 0);
    let b = run_end(text, a + 1);
    let c = run_end(text, b + 1);
    let d = run_end(text, c + 1);
    let n = text.len() as int;
    lemma_run_end(text, 0);
    lemma_run_end(text, a + 1);
    lemma_run_end(text, b + 1);
    lemma_run_end(text, c + 1);
    lemma_run_end(text, d + 1);
    let month = text.subrange(0, a);
    let day = text.subrange(a + 1, b);
    let year = text.subrange(b + 1, c);
    let hour = text.subrange(c + 1, d);
    let minute = text.subrange(d + 1, n);
    lemma_part_is_digits(text, 0, a);
    lemma_part_is_digits(text, a + 1, b);
    lemma_part_is_digits(text, b + 1, c);
    lemma_part_is_digits(text, c + 1, d);
    lemma_part_is_digits(text, d + 1, n);
    assert(text =~= month + seq![47u8] + day + seq![47u8] + year + seq![32u8] + hour + seq![58u8]
        + minute);
    assert(is_stamp(text, month, day, year, hour, minute));
}

proof fn lemma_part_is_digits(text: Seq<u8>, from: int, to: int)
    requires
        0 <= from < to <= text.len(),
        forall|i: int| from <= i < to ==> is_digit(#[trigger] text[i]),
    ensures
        are_digits(text.subrange(from, to)),
{
    let part = text.subrange(from, to);
    assert forall|i: int| 0 <= i < part.len() implies 48 <= #[trigger] part[i] <= 57 by {
        assert(is_digit(text[from + i]));
    }
}

/// A timestamp lies in the year that is meant by what is written: 2000 and more for 0 to 69, 1970
/// to 1999 for 70 to 99. So writing the next year, up to 69, leads to a later minute, by the
/// length of a year.
pub proof fn lemma_stamp_lies_in_its_year(
    text: Seq<u8>,
    month: Seq<u8>,
    day: Seq<u8>,
    year: Seq<u8>,
    hour: Seq<u8>,
    minute: Seq<u8>,
)
    requires
        is_stamp(text, month, day, year, hour, minute),
        is_datetime(text),
    ensures
        ({
            let y = written(year);
            let key = datetime_key(text);
            &&& 0 <= y <= 69 ==> civil_days(2000 + y, 1, 1) * 1440 <= key < civil_days(
                2001 + y,
                1,
                1,
            ) * 1440
            &&& 70 <= y <= 99 ==> civil_days(1900 + y, 1, 1) * 1440 <= key < civil_days(
                1901 + y,
                1,
                1,
            ) * 1440
        }),
{
    lemma_stamp_runs(text, month, day, year, hour, minute);
    lemma_stamp_meaning(text, month, day, year, hour, minute);
    lemma_run_is_nonnegative(text, hour_at(text));
    lemma_run_is_nonnegative(text, minute_at(text));
    let y = written(year);
    if 0 <= y <= 69 {
        lemma_day_of_year(2000 + y, written(month), written(day));
    } else if 70 <= y <= 99 {
        lemma_day_of_year(1900 + y, written(month), written(day));
    }
}

/// The same day and hour in the year that is written next, up to 69, is 365 or 366 days later.
pub proof fn lemma_next_written_year(
    text: Seq<u8>,
    later: Seq<u8>,
    month: Seq<u8>,
    day: Seq<u8>,
    year: Seq<u8>,
    next: Seq<u8>,
    hour: Seq<u8>,
    minute: Seq<u8>,
)
    requires
        is_stamp(text, month, day, year, hour, minute),
        is_stamp(later, month, day, next, hour, minute),
        is_datetime(text),
        0 <= written(year) <= 68,
        written(next) == written(year) + 1,
    ensures
        is_datetime(later),
        datetime_key(later) == datetime_key(text) + 365 * 1440 || datetime_key(later)
            == datetime_key(text) + 366 * 1440,
{
    lemma_stamp_meaning(text, month, day, year, hour, minute);
    lemma_stamp_meaning(later, month, day, next, hour, minute);
    lemma_leap_steps(2000 + written(year));
    lemma_leap_steps(2001 + written(year));
}

/// A text is given up as too large only if it is a timestamp of a year that is, or if it has a
/// number in it that takes more than 32 bits: any other text that is no timestamp is refused.
pub proof fn lemma_not_too_large(text: Seq<u8>)
    requires
        numbers_within(text, 4_294_967_295),
        !is_datetime(text),
    ensures
        datetime_in_range(text),
{
    lemma_run_end(text, 0);
    lemma_runs_within(text, 4_294_967_295, 0);
    lemma_run_end(text, day_at(text));
    lemma_runs_within(text, 4_294_967_295, day_at(text));
    lemma_run_end(text, year_at(text));
    lemma_runs_within(text, 4_294_967_295, year_at(text));
    lemma_run_end(text, hour_at(text));
    lemma_runs_within(text, 4_294_967_295, hour_at(text));
    lemma_runs_within(text, 4_294_967_295, minute_at(text));
}

/// What is said of a text that is no timestamp: the whole text, where it has the form of one and
/// only the numbers are wrong; otherwise that a component is.
pub proof fn lemma_datetime_faults(raw: Seq<char>)
    ensures
        (exists|month: Seq<u8>, day: Seq<u8>, year: Seq<u8>, hour: Seq<u8>, minute: Seq<u8>| #[trigger]
            is_stamp(encode_utf8(raw), month, day, year, hour, minute)) ==> datetime_fault(raw)
            == "invalid datetime: "@ + raw,
        !(exists|month: Seq<u8>, day: Seq<u8>, year: Seq<u8>, hour: Seq<u8>, minute: Seq<u8>| #[trigger]
            is_stamp(encode_utf8(raw), month, day, year, hour, minute)) ==> datetime_fault(raw)
            == "invalid datetime component"@,
{
    let text = encode_utf8(raw);
    if exists|month: Seq<u8>, day: Seq<u8>, year: Seq<u8>, hour: Seq<u8>, minute: Seq<u8>| #[trigger]
        is_stamp(text, month, day, year, hour, minute) {
        let (month, day, year, hour, minute) = choose|
            month: Seq<u8>,
            day: Seq<u8>,
            year: Seq<u8>,
            hour: Seq<u8>,
            minute: Seq<u8>,
        | #[trigger]
            is_stamp(text, month, day, year, hour, minute);
        lemma_stamp_runs(text, month, day, year, hour, minute);
    } else if has_form(text) {
        lemma_only_stamps(text);
    }
}

} // verus!
