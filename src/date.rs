//! Calendar days in day/month/year form, their fixed text pattern, and their
//! instants on the time line.

use vstd::prelude::*;
use crate::text::{all_digits, digit_to_char, chars_of, digits_value, is_digit, lemma_padded_digits, padded_digits, pow10, string_of};
use chrono::Datelike;

verus! {

/// A calendar day with no time of day.
#[derive(Clone, Copy, Debug, PartialEq, Eq, Structural)]
pub struct Date {
    pub day: u32,
    pub month: u32,
    pub year: u32,
}

pub open spec fn is_leap_year(y: int) -> bool {
    (y % 4 == 0 && y % 100 != 0) || y % 400 == 0
}

pub open spec fn days_in_month(y: int, m: int) -> int {
    if m == 2 {
        if is_leap_year(y) { 29 } else { 28 }
    } else if m == 4 || m == 6 || m == 9 || m == 11 {
        30
    } else {
        31
    }
}

/// The offset of "today", in seconds west of UTC: the calendar day is read
/// at this fixed offset, not at the host's time zone, so that it does not
/// depend on where the program runs.
pub const FIXED_WEST_OFFSET_SECS: i32 = 10800;

/// Days from 1970-01-01 to the given day of the proleptic Gregorian calendar,
/// counting years from March so that the leap day ends a year.
pub open spec fn days_from_civil(year: int, month: int, day: int) -> int {
    let y = if month <= 2 { year - 1 } else { year };
    let era = y / 400;
    let year_of_era = y - era * 400;
    let shifted_month = if month > 2 { month - 3 } else { month + 9 };
    let day_of_year = (153 * shifted_month + 2) / 5 + day - 1;
    let day_of_era = year_of_era * 365 + year_of_era / 4 - year_of_era / 100 + day_of_year;
    era * 146097 + day_of_era - 719468
}

/// Seconds from 1970-01-01 00:00:00 to midnight at the start of the given day.
pub open spec fn midnight_timestamp(year: int, month: int, day: int) -> int {
    days_from_civil(year, month, day) * 86400
}

impl Date {
    /// A real calendar day whose year fits the four-digit pattern.
    pub open spec fn wf(self) -> bool {
        &&& 1 <= self.month <= 12
        &&& 1 <= self.day <= days_in_month(self.year as int, self.month as int)
        &&& self.year <= 9999
    }

    /// The day as `DD/MM/YYYY`.
    pub open spec fn text(self) -> Seq<char> {
        padded_digits(self.day as nat, 2) + seq!['/'] + padded_digits(self.month as nat, 2)
            + seq!['/'] + padded_digits(self.year as nat, 4)
    }

    pub open spec fn instant(self) -> int {
        midnight_timestamp(self.year as int, self.month as int, self.day as int)
    }

    /// Builds a day from its parts, if they name a real day with a four-digit year.
    pub fn new(day: u32, month: u32, year: u32) -> (r: Option<Date>)
        ensures
            r == (if (Date { day, month, year }).wf() {
                Some(Date { day, month, year })
            } else {
                None
            }),
    {
        let d = Date { day, month, year };
        if 1 <= month && month <= 12 && 1 <= day && day <= month_length(year, month) && year <= 9999 {
            Some(d)
        } else {
            None
        }
    }

    /// Writes the day in the `DD/MM/YYYY` pattern.
    pub fn format(&self) -> (r: String)
        ensures
            r@ == self.text(),
    {
        let mut v: Vec<char> = Vec::new();
        push_padded(&mut v, self.day as u64, 2);
        v.push('/');
        push_padded(&mut v, self.month as u64, 2);
        v.push('/');
        push_padded(&mut v, self.year as u64, 4);
        assert(v@ =~= self.text());
        string_of(&v)
    }

    /// Seconds from the epoch to midnight at the start of this day.
    pub fn timestamp(&self) -> (r: i64)
        requires
            self.wf(),
        ensures
            r as int == self.instant(),
    {
        day_start_seconds(self.year as i32, self.month, self.day)
    }
}

pub fn month_length(year: u32, month: u32) -> (r: u32)
    ensures
        r as int == days_in_month(year as int, month as int),
{
    if month == 2 {
        if (year % 4 == 0 && year % 100 != 0) || year % 400 == 0 {
            29
        } else {
            28
        }
    } else if month == 4 || month == 6 || month == 9 || month == 11 {
        30
    } else {
        31
    }
}

/// Appends `n` as exactly `width` digits, zeros in front.
fn push_padded(out: &mut Vec<char>, n: u64, width: u64)
    ensures
        final(out)@ == old(out)@ + padded_digits(n as nat, width as nat),
    decreases width,
{
    if width > 0 {
        push_padded(out, n / 10, width - 1);
        out.push(digit_to_char(n % 10));
    }
}

/// The day that `s` writes in the `DD/MM/YYYY` pattern, if it is a real day.
///
/// The pattern is strict by design: exactly two digits of day, two of month
/// and four of year, with no sign and no spaces. Each day then has exactly
/// one text, so a log line reads back as the entry that wrote it.
pub open spec fn date_of_text(s: Seq<char>) -> Option<Date> {
    if s.len() == 10 && s[2] == '/' && s[5] == '/' && all_digits(s.subrange(0, 2))
        && all_digits(s.subrange(3, 5)) && all_digits(s.subrange(6, 10)) {
        let d = Date {
            day: digits_value(s.subrange(0, 2)) as u32,
            month: digits_value(s.subrange(3, 5)) as u32,
            year: digits_value(s.subrange(6, 10)) as u32,
        };
        if d.wf() { Some(d) } else { None }
    } else {
        None
    }
}

/// The value of the digits `s[lo..hi]`, if all of them are digits.
pub fn digits_in(s: &Vec<char>, lo: usize, hi: usize) -> (r: Option<u32>)
    requires
        lo <= hi <= s@.len(),
        hi - lo <= 4,
    ensures
        r == (if all_digits(s@.subrange(lo as int, hi as int)) {
            Some(digits_value(s@.subrange(lo as int, hi as int)) as u32)
        } else {
            None
        }),
        r is Some ==> digits_value(s@.subrange(lo as int, hi as int)) < 10000,
{
    let mut acc: u32 = 0;
    let mut i: usize = lo;
    while i < hi
        invariant
            lo <= i <= hi <= s@.len(),
            hi - lo <= 4,
            all_digits(s@.subrange(lo as int, i as int)),
            acc as int == digits_value(s@.subrange(lo as int, i as int)),
            acc < pow10((i - lo) as nat),
        decreases hi - i,
    {
        let c = s[i];
        assert(s@.subrange(lo as int, i as int + 1).drop_last() =~= s@.subrange(lo as int, i as int));
        if !('0' <= c && c <= '9') {
            assert(!all_digits(s@.subrange(lo as int, hi as int))) by {
                assert(s@.subrange(lo as int, hi as int)[i - lo] == c);
            }
            return None;
        }
        assert(pow10((i + 1 - lo) as nat) == 10 * pow10((i - lo) as nat));
        assert(pow10((i - lo) as nat) <= 1000) by {
            assert(pow10(0) == 1);
            assert(pow10(1) == 10);
            assert(pow10(2) == 100);
            assert(pow10(3) == 1000);
        }
        acc = acc * 10 + (c as u32 - '0' as u32);
        i = i + 1;
        assert forall|k: int| 0 <= k < i - lo implies is_digit(#[trigger] s@.subrange(lo as int, i as int)[k]) by {
            if k < i - 1 - lo {
                assert(s@.subrange(lo as int, i as int)[k] == s@.subrange(lo as int, i - 1)[k]);
            }
        }
    }
    assert(pow10(4) == 10000) by {
        assert(pow10(0) == 1);
        assert(pow10(1) == 10);
        assert(pow10(2) == 100);
        assert(pow10(3) == 1000);
    }
    assert(pow10((hi - lo) as nat) <= 10000) by {
        assert(pow10(0) == 1);
        assert(pow10(1) == 10);
        assert(pow10(2) == 100);
        assert(pow10(3) == 1000);
    }
    Some(acc)
}

/// Reads a day written in the `DD/MM/YYYY` pattern.
pub fn parse_date_chars(s: &Vec<char>) -> (r: Option<Date>)
    ensures
        r == date_of_text(s@),
{
    if s.len() != 10 || s[2] != '/' || s[5] != '/' {
        return None;
    }
    let day = digits_in(s, 0, 2);
    let month = digits_in(s, 3, 5);
    let year = digits_in(s, 6, 10);
    match (day, month, year) {
        (Some(d), Some(m), Some(y)) => Date::new(d, m, y),
        _ => None,
    }
}

/// Reads a day written in the `DD/MM/YYYY` pattern.
pub fn parse_date(s: &str) -> (r: Option<Date>)
    ensures
        r == date_of_text(s@),
{
    let v = chars_of(s);
    parse_date_chars(&v)
}

/// Writing a valid day and reading it back gives the same day.
pub proof fn lemma_date_round_trip(d: Date)
    requires
        d.wf(),
    ensures
        date_of_text(d.text()) == Some(d),
{
    let t = d.text();
    lemma_padded_digits(d.day as nat, 2);
    lemma_padded_digits(d.month as nat, 2);
    lemma_padded_digits(d.year as nat, 4);
    assert(pow10(2) == 100) by {
        assert(pow10(0) == 1);
        assert(pow10(1) == 10);
    }
    assert(pow10(4) == 10000) by {
        assert(pow10(3) == 1000);
    }
    assert(t.subrange(0, 2) =~= padded_digits(d.day as nat, 2));
    assert(t.subrange(3, 5) =~= padded_digits(d.month as nat, 2));
    assert(t.subrange(6, 10) =~= padded_digits(d.year as nat, 4));
}

/// Relies on `NaiveDate::from_ymd_opt`, `NaiveDate::and_hms_opt` and
/// `DateTime::timestamp` of chrono: the seconds from the epoch to midnight of
/// a valid day. Both constructors return `Some` for a real day of a year in
/// chrono's range and for the time 00:00:00.
#[verifier::external_body]
fn day_start_seconds(year: i32, month: u32, day: u32) -> (r: i64)
    requires
        0 <= year <= 9999,
        1 <= month <= 12,
        1 <= day <= days_in_month(year as int, month as int),
    ensures
        r as int == midnight_timestamp(year as int, month as int, day as int),
{
    let date = chrono::NaiveDate::from_ymd_opt(year, month, day).unwrap();
    date.and_hms_opt(0, 0, 0).unwrap().and_utc().timestamp()
}

/// Relies on chrono's `Utc::now`, seen at `FixedOffset::west_opt(west_secs)`
/// (which is `Some` for an offset of less than a day either way): the year,
/// month and day of a real calendar day (a `NaiveDate` always holds one).
#[verifier::external_body]
fn today_parts(west_secs: i32) -> (r: (i32, u32, u32))
    requires
        -86400 < west_secs < 86400,
    ensures
        1 <= r.1 <= 12,
        1 <= r.2 <= days_in_month(r.0 as int, r.1 as int),
{
    let offset = chrono::FixedOffset::west_opt(west_secs).unwrap();
    let now = chrono::Utc::now().with_timezone(&offset);
    (now.year(), now.month(), now.day())
}

/// The day of the given parts, if they name a real day with a year of four digits.
pub fn date_of_parts(year: i32, month: u32, day: u32) -> (r: Option<Date>)
    ensures
        r == (if 0 <= year <= 9999 && (Date { day, month, year: year as u32 }).wf() {
            Some(Date { day, month, year: year as u32 })
        } else {
            None
        }),
{
    if 0 <= year && year <= 9999 {
        Date::new(day, month, year as u32)
    } else {
        None
    }
}

/// Today's date at `FIXED_WEST_OFFSET_SECS` west of UTC; `None` if the year
/// does not fit four digits.
pub fn today() -> (r: Option<Date>)
    ensures
        r matches Some(d) ==> d.wf(),
{
    let (y, m, d) = today_parts(FIXED_WEST_OFFSET_SECS);
    date_of_parts(y, m, d)
}

} // verus!
