//! Capture times of photos: the EXIF date notation and the calendar.
use crate::outside::{read_original_time, text_from_bytes};
use crate::text::{chars_of, parse_chars, slice_of, trim_chars};
use crate::{outside, text};
use vstd::prelude::*;

verus! {

// ---------------------------------------------------------------------------
// The calendar
// ---------------------------------------------------------------------------

pub open spec fn is_leap(year: int) -> bool {
    year % 4 == 0 && (year % 100 != 0 || year % 400 == 0)
}

/// Days from the first of January of the year 1 to that of `year`, in the
/// proleptic Gregorian calendar.
pub open spec fn days_before_year(year: int) -> int {
    let past = year - 1;
    365 * past + past / 4 - past / 100 + past / 400
}

/// Days of a common year before each month.
pub open spec fn days_before_month(month: int) -> int {
    if month <= 1 {
        0
    } else if month == 2 {
        31
    } else if month == 3 {
        59
    } else if month == 4 {
        90
    } else if month == 5 {
        120
    } else if month == 6 {
        151
    } else if month == 7 {
        181
    } else if month == 8 {
        212
    } else if month == 9 {
        243
    } else if month == 10 {
        273
    } else if month == 11 {
        304
    } else {
        334
    }
}

/// Days from 1970-01-01 to a date of the proleptic Gregorian calendar. A day
/// beyond the end of its month counts into the next.
pub open spec fn civil_days(year: int, month: int, day: int) -> int {
    days_before_year(year) + days_before_month(month) + (if month > 2 && is_leap(year) {
        1int
    } else {
        0
    }) + day - 1 - 719_162
}

proof fn lemma_year_split(y: int, era: int, yoe: int)
    requires
        y == 400 * era + yoe,
        0 <= yoe < 400,
    ensures
        146_097 * era + 365 * yoe + yoe / 4 - yoe / 100 == 365 * y + y / 4 - y / 100 + y / 400,
{
    assert(y / 4 == 100 * era + yoe / 4);
    assert(y / 100 == 4 * era + yoe / 100);
    assert(y / 400 == era);
}

proof fn lemma_leap_step(year: int)
    ensures
        days_before_year(year + 1) == days_before_year(year) + 365 + (if is_leap(year) {
            1int
        } else {
            0
        }),
{
    let past = year - 1;
    assert(year / 4 - past / 4 == (if year % 4 == 0 {
        1int
    } else {
        0
    }));
    assert(year / 100 - past / 100 == (if year % 100 == 0 {
        1int
    } else {
        0
    }));
    assert(year / 400 - past / 400 == (if year % 400 == 0 {
        1int
    } else {
        0
    }));
    assert(year % 400 == 0 ==> year % 100 == 0);
    assert(year % 100 == 0 ==> year % 4 == 0);
}

/// Days from 1970-01-01 to a date, by the count of four-hundred-year eras
/// that begin in March.
pub fn days_from_civil(y: i64, m: i64, d: i64) -> (days: i64)
    requires
        1 <= m <= 12,
        1 <= d <= 31,
        i64::MIN <= civil_days(y as int, m as int, d as int) <= i64::MAX,
    ensures
        days == civil_days(y as int, m as int, d as int),
{
    let shifted: i128 = if m <= 2 {
        y as i128 - 1
    } else {
        y as i128
    };
    let base: i128 = if shifted >= 0 {
        shifted
    } else {
        shifted - 399
    };
    let era: i128 = base / 400;
    let yoe: i128 = shifted - era * 400;
    let from_march: i128 = if m > 2 {
        m as i128 - 3
    } else {
        m as i128 + 9
    };
    let doy: i128 = (153 * from_march + 2) / 5 + d as i128 - 1;
    proof {
        assert(era == shifted as int / 400) by {
            if shifted < 0 {
                let t = -(base as int);
                assert(era == -(t / 400));
            }
        }
        assert(0 <= yoe < 400);
        lemma_year_split(shifted as int, era as int, yoe as int);
        lemma_leap_step(y as int);
        if m <= 2 {
            assert(doy == 306 + days_before_month(m as int) + d - 1);
        } else {
            assert(doy == days_before_month(m as int) - 59 + d - 1);
        }
    }
    let doe: i128 = yoe * 365 + yoe / 4 - yoe / 100 + doy;
    (era * 146_097 + doe - 719_468) as i64
}

/// Length of a month.
pub open spec fn month_length(year: int, month: int) -> int {
    if month == 2 {
        if is_leap(year) {
            29
        } else {
            28
        }
    } else if month == 4 || month == 6 || month == 9 || month == 11 {
        30
    } else {
        31
    }
}

/// The day count starts with the epoch and goes up by one from each date to
/// the next: within a month, from month to month, and from year to year.
pub proof fn law_days_follow_the_calendar(year: int, month: int, day: int)
    requires
        1 <= month <= 12,
        1 <= day <= month_length(year, month),
    ensures
        civil_days(1970, 1, 1) == 0,
        day < month_length(year, month) ==> civil_days(year, month, day + 1) == civil_days(
            year,
            month,
            day,
        ) + 1,
        day == month_length(year, month) && month < 12 ==> civil_days(year, month + 1, 1)
            == civil_days(year, month, day) + 1,
        day == month_length(year, month) && month == 12 ==> civil_days(year + 1, 1, 1)
            == civil_days(year, month, day) + 1,
{
    lemma_leap_step(year);
}

// ---------------------------------------------------------------------------
// The EXIF notation
// ---------------------------------------------------------------------------

/// `value` without the null characters at its end.
pub open spec fn without_nulls(value: Seq<char>) -> Seq<char>
    decreases value.len(),
{
    if value.len() > 0 && value.last() == '\0' {
        without_nulls(value.drop_last())
    } else {
        value
    }
}

/// The character fits the place in the notation `YYYY:MM:DD HH:MM:SS`.
pub open spec fn fits_notation(c: char, place: int) -> bool {
    if place == 4 || place == 7 || place == 13 || place == 16 {
        c == ':'
    } else if place == 10 {
        c == ' '
    } else {
        text::is_digit(c)
    }
}

/// The text is written `YYYY:MM:DD HH:MM:SS`.
pub open spec fn in_notation(date: Seq<char>) -> bool {
    date.len() == 19 && forall|k: int| 0 <= k < 19 ==> fits_notation(#[trigger] date[k], k)
}

/// The number in a part of the text.
pub open spec fn number_at(value: Seq<char>, from: int, to: int) -> int {
    text::digits_value(value.subrange(from, to)) as int
}

/// Unix seconds of a date of the calendar and a time of the day, written
/// `YYYY:MM:DD HH:MM:SS` and taken without a time zone; zero on anything else.
pub open spec fn exif_seconds(value: Seq<char>) -> int {
    let date = text::trimmed(without_nulls(value));
    let (year, month, day) = (number_at(date, 0, 4), number_at(date, 5, 7), number_at(date, 8, 10));
    let (hour, minute, second) = (
        number_at(date, 11, 13),
        number_at(date, 14, 16),
        number_at(date, 17, 19),
    );
    if in_notation(date) && 1 <= month <= 12 && 1 <= day <= month_length(year, month) && hour <= 23
        && minute <= 59 && second <= 59 {
        civil_days(year, month, day) * 86_400 + hour * 3_600 + minute * 60 + second
    } else {
        0
    }
}

/// A run of at most four digits stays below ten thousand.
proof fn lemma_short_numbers(value: Seq<char>)
    requires
        value.len() <= 4,
        text::all_digits(value),
    ensures
        text::digits_value(value) < 10_000,
        value.len() <= 3 ==> text::digits_value(value) < 1_000,
        value.len() <= 2 ==> text::digits_value(value) < 100,
        value.len() <= 1 ==> text::digits_value(value) < 10,
        value.len() == 0 ==> text::digits_value(value) == 0,
    decreases value.len(),
{
    if value.len() > 0 {
        let front = value.drop_last();
        assert forall|i: int| 0 <= i < front.len() implies text::is_digit(#[trigger] front[i]) by {
            assert(front[i] == value[i]);
        }
        lemma_short_numbers(front);
        assert(text::is_digit(value[value.len() - 1]));
    }
}

fn read_number(date: &[char], from: usize, to: usize) -> (n: i64)
    requires
        from < to <= date@.len(),
        to - from <= 4,
        forall|k: int| from <= k < to ==> text::is_digit(#[trigger] date@[k]),
    ensures
        n == number_at(date@, from as int, to as int),
        0 <= n < 10_000,
        to - from <= 2 ==> n < 100,
{
    let part = slice_of(date, from, to);
    proof {
        assert forall|k: int| 0 <= k < part@.len() implies text::is_digit(#[trigger] part@[k]) by {
            assert(part@[k] == date@[from + k]);
        }
        lemma_short_numbers(part@);
        assert(text::is_digit(part@[0]));
        assert(part@ =~= date@.subrange(from as int, to as int));
    }
    match parse_chars(part.as_slice()) {
        Some(n) => n,
        None => 0,
    }
}

fn has_notation(date: &[char]) -> (yes: bool)
    ensures
        yes == in_notation(date@),
{
    if date.len() != 19 {
        return false;
    }
    for i in 0..19usize
        invariant
            date@.len() == 19,
            forall|k: int| 0 <= k < i ==> fits_notation(#[trigger] date@[k], k),
    {
        let c: char = date[i];
        let fits = if i == 4 || i == 7 || i == 13 || i == 16 {
            c == ':'
        } else if i == 10 {
            c == ' '
        } else {
            '0' <= c && c <= '9'
        };
        if !fits {
            return false;
        }
    }
    true
}

fn days_in_month(year: i64, month: i64) -> (days: i64)
    requires
        0 <= year,
    ensures
        days == month_length(year as int, month as int),
{
    if month == 2 {
        if year % 4 == 0 && (year % 100 != 0 || year % 400 == 0) {
            29
        } else {
            28
        }
    } else if month == 4 || month == 6 || month == 9 || month == 11 {
        30
    } else {
        31
    }
}

/// Unix seconds of an EXIF date; zero on anything unexpected.
pub fn parse_exif_datetime(value: &str) -> (seconds: i64)
    ensures
        seconds == exif_seconds(value@),
{
    let whole = chars_of(value);
    let mut n: usize = whole.len();
    proof {
        assert(whole@.take(n as int) =~= whole@);
    }
    while n > 0 && whole[n - 1] == '\0'
        invariant
            n <= whole@.len(),
            without_nulls(whole@) == without_nulls(whole@.take(n as int)),
        decreases n,
    {
        proof {
            assert(whole@.take(n as int).drop_last() =~= whole@.take(n - 1));
        }
        n = n - 1;
    }
    let plain = slice_of(whole.as_slice(), 0, n);
    proof {
        assert(plain@ =~= whole@.take(n as int));
        assert(without_nulls(plain@) == plain@);
    }
    let date = trim_chars(plain.as_slice());
    if !has_notation(date.as_slice()) {
        return 0;
    }
    proof {
        assert forall|k: int|
            0 <= k < 19 && k != 4 && k != 7 && k != 10 && k != 13 && k != 16 implies text::is_digit(
            #[trigger] date@[k],
        ) by {
            assert(fits_notation(date@[k], k));
        }
    }
    let year = read_number(date.as_slice(), 0, 4);
    let month = read_number(date.as_slice(), 5, 7);
    let day = read_number(date.as_slice(), 8, 10);
    let hour = read_number(date.as_slice(), 11, 13);
    let minute = read_number(date.as_slice(), 14, 16);
    let second = read_number(date.as_slice(), 17, 19);
    if month < 1 || month > 12 || day < 1 || day > days_in_month(year, month) || hour > 23 || minute
        > 59 || second > 59 {
        return 0;
    }
    proof {
        let past = year - 1;
        assert(-1 <= past / 4 <= 2_500);
        assert(-1 <= past / 100 <= 100);
        assert(-1 <= past / 400 <= 25);
    }
    days_from_civil(year, month, day) * 86_400 + hour * 3_600 + minute * 60 + second
}

/// The capture time that a content carries; zero where it carries none.
pub open spec fn taken_seconds(raw: Option<Seq<u8>>) -> int {
    match raw {
        None => 0,
        Some(bytes) => exif_seconds(outside::lossy_text(bytes)),
    }
}

/// Unix seconds of a raw EXIF date field.
pub fn seconds_of_field(raw: &Option<Vec<u8>>) -> (seconds: i64)
    ensures
        seconds == taken_seconds(
            match *raw {
                Some(bytes) => Some(bytes@),
                None => None,
            },
        ),
{
    match raw {
        None => 0,
        Some(bytes) => {
            let decoded = text_from_bytes(bytes.as_slice());
            parse_exif_datetime(decoded.as_str())
        },
    }
}

/// The content begins as a JPEG or a TIFF file does.
pub open spec fn is_jpeg_or_tiff(content: Seq<u8>) -> bool {
    ||| content.len() >= 2 && content[0] == 0xff && content[1] == 0xd8
    ||| content.len() >= 4 && content[0] == 0x49 && content[1] == 0x49 && content[2] == 42
        && content[3] == 0
    ||| content.len() >= 4 && content[0] == 0x4d && content[1] == 0x4d && content[2] == 0
        && content[3] == 42
}

fn has_jpeg_or_tiff(content: &[u8]) -> (yes: bool)
    ensures
        yes == is_jpeg_or_tiff(content@),
{
    let n = content.len();
    if n >= 2 && content[0] == 0xff && content[1] == 0xd8 {
        return true;
    }
    n >= 4 && ((content[0] == 0x49 && content[1] == 0x49 && content[2] == 42 && content[3] == 0)
        || (content[0] == 0x4d && content[1] == 0x4d && content[2] == 0 && content[3] == 42))
}

/// The capture time of a photo in unix seconds; zero where its content has no
/// readable one. Only JPEG and TIFF contents are tried.
pub fn exif_taken_seconds(content: &[u8]) -> (seconds: i64)
    ensures
        seconds == (if is_jpeg_or_tiff(content@) {
            taken_seconds(outside::exif_original_time(content@))
        } else {
            0
        }),
{
    if !has_jpeg_or_tiff(content) {
        return 0;
    }
    let raw = read_original_time(content);
    seconds_of_field(&raw)
}

} // verus!
