//! The `*DATE` stamp of a SPEF file: `HH:MM:SS Weekday Month DD, YYYY`, in UTC.
//!
//! The stamp is an explicit one if the caller gives it; else the instant that
//! `SOURCE_DATE_EPOCH` names; else the current time.
use crate::number;
use crate::text;
use vstd::prelude::*;

verus! {

/// Whether a year of the Gregorian calendar has a leap day.
pub open spec fn is_leap(y: int) -> bool {
    y % 4 == 0 && (y % 100 != 0 || y % 400 == 0)
}

/// The number of days of a month.
pub open spec fn month_len(y: int, m: int) -> int {
    if m == 2 {
        if is_leap(y) {
            29
        } else {
            28
        }
    } else if m == 4 || m == 6 || m == 9 || m == 11 {
        30
    } else {
        31
    }
}

/// The number of leap years before a year, counted from the year one.
pub open spec fn leaps_before(y: int) -> int {
    (y - 1) / 4 - (y - 1) / 100 + (y - 1) / 400
}

/// The days from the first of January 1970 to the first of January of a year.
pub open spec fn year_start(y: int) -> int {
    365 * (y - 1970) + leaps_before(y) - leaps_before(1970)
}

/// The days of a year before a month.
pub open spec fn month_start(y: int, m: int) -> int
    decreases m,
{
    if m <= 1 {
        0
    } else {
        month_start(y, m - 1) + month_len(y, m - 1)
    }
}

/// A day of the calendar.
pub struct Day {
    pub year: i64,
    pub month: u64,
    pub day: u64,
}

/// Whether a year, month and day are a day of the calendar.
pub open spec fn is_day(y: int, m: int, d: int) -> bool {
    1 <= m <= 12 && 1 <= d <= month_len(y, m)
}

/// The days from the first of January 1970 to a day.
pub open spec fn day_number(y: int, m: int, d: int) -> int {
    year_start(y) + month_start(y, m) + d - 1
}

/// A year is as long as its months: 365 days, or 366 in a leap year.
pub proof fn a_year_is_its_months(y: int)
    ensures
        year_start(y + 1) - year_start(y) == (if is_leap(y) {
            366int
        } else {
            365
        }),
        month_start(y, 13) == year_start(y + 1) - year_start(y),
{
    reveal_with_fuel(month_start, 14);
}

proof fn lemma_month_start_grows(y: int, m: int, n: int)
    requires
        1 <= m < n <= 13,
    ensures
        month_start(y, m) + month_len(y, m) <= month_start(y, n),
    decreases n,
{
    if m < n - 1 {
        lemma_month_start_grows(y, m, n - 1);
    }
}

proof fn lemma_year_start_grows(y: int, z: int)
    requires
        y < z,
    ensures
        year_start(y + 1) <= year_start(z),
    decreases z - y,
{
    if y + 1 < z {
        lemma_year_start_grows(y, z - 1);
        a_year_is_its_months(z - 1);
    }
}

/// Two different days of the calendar have different day numbers.
pub proof fn a_day_number_names_one_day(y: int, m: int, d: int, z: int, n: int, e: int)
    requires
        is_day(y, m, d),
        is_day(z, n, e),
        day_number(y, m, d) == day_number(z, n, e),
    ensures
        y == z && m == n && d == e,
{
    a_year_is_its_months(y);
    a_year_is_its_months(z);
    lemma_month_start_nonneg(y, m);
    lemma_month_start_nonneg(z, n);
    lemma_month_end(y, m);
    lemma_month_end(z, n);
    if y < z {
        lemma_year_start_grows(y, z);
    } else if z < y {
        lemma_year_start_grows(z, y);
    } else if m < n {
        lemma_month_start_grows(y, m, n);
    } else if n < m {
        lemma_month_start_grows(y, n, m);
    }
}

proof fn lemma_month_start_nonneg(y: int, m: int)
    requires
        1 <= m <= 13,
    ensures
        0 <= month_start(y, m),
    decreases m,
{
    if m > 1 {
        lemma_month_start_nonneg(y, m - 1);
    }
}

proof fn lemma_month_end(y: int, m: int)
    requires
        1 <= m <= 12,
    ensures
        month_start(y, m) + month_len(y, m) <= month_start(y, 13),
{
    lemma_month_start_grows(y, m, 13);
}

/// The name of the day of the week, counted from the first of January 1970.
pub open spec fn weekday(k: int) -> Seq<char> {
    if k == 0 {
        "Thursday"@
    } else if k == 1 {
        "Friday"@
    } else if k == 2 {
        "Saturday"@
    } else if k == 3 {
        "Sunday"@
    } else if k == 4 {
        "Monday"@
    } else if k == 5 {
        "Tuesday"@
    } else {
        "Wednesday"@
    }
}

/// The name of a month.
pub open spec fn month_name(m: int) -> Seq<char> {
    if m == 1 {
        "January"@
    } else if m == 2 {
        "February"@
    } else if m == 3 {
        "March"@
    } else if m == 4 {
        "April"@
    } else if m == 5 {
        "May"@
    } else if m == 6 {
        "June"@
    } else if m == 7 {
        "July"@
    } else if m == 8 {
        "August"@
    } else if m == 9 {
        "September"@
    } else if m == 10 {
        "October"@
    } else if m == 11 {
        "November"@
    } else {
        "December"@
    }
}

/// A number below a hundred in two digits.
pub open spec fn two_digits(n: int) -> Seq<char> {
    number::padded(n as nat, 2)
}

/// The stamp of a second of a day of the calendar.
pub open spec fn stamp(second: int, weekday_index: int, y: int, m: int, d: int) -> Seq<char> {
    two_digits(second / 3600) + ":"@ + two_digits((second % 3600) / 60) + ":"@ + two_digits(
        second % 60,
    ) + " "@ + weekday(weekday_index) + " "@ + month_name(m) + " "@ + two_digits(d) + ", "@
        + text::int_text(y)
}

/// Whether a text is the stamp of an instant, given in seconds from the start
/// of 1970.
pub open spec fn is_stamp(s: Seq<char>, epoch_secs: int) -> bool {
    exists|y: int, m: int, d: int|
        is_day(y, m, d) && #[trigger] day_number(y, m, d) == epoch_secs / 86_400 && s == stamp(
            epoch_secs % 86_400,
            (epoch_secs / 86_400) % 7,
            y,
            m,
            d,
        )
}

/// An instant has one stamp.
pub proof fn an_instant_has_one_stamp(s: Seq<char>, t: Seq<char>, epoch_secs: int)
    requires
        is_stamp(s, epoch_secs),
        is_stamp(t, epoch_secs),
    ensures
        s == t,
{
    let (y, m, d) = choose|y: int, m: int, d: int|
        is_day(y, m, d) && #[trigger] day_number(y, m, d) == epoch_secs / 86_400 && s == stamp(
            epoch_secs % 86_400,
            (epoch_secs / 86_400) % 7,
            y,
            m,
            d,
        );
    let (z, n, e) = choose|z: int, n: int, e: int|
        is_day(z, n, e) && #[trigger] day_number(z, n, e) == epoch_secs / 86_400 && t == stamp(
            epoch_secs % 86_400,
            (epoch_secs / 86_400) % 7,
            z,
            n,
            e,
        );
    a_day_number_names_one_day(y, m, d, z, n, e);
}

/// The days before a year that starts in March, of the 400 such years of an
/// era.
spec fn march_start(yoe: int) -> int {
    365 * yoe + yoe / 4 - yoe / 100
}

proof fn lemma_shifted(era: int, yoe: int, doy: int, y: int, m: int, d: int, before: int)
    requires
        0 <= yoe < 400,
        y == 400 * era + yoe + (if m <= 2 {
            1int
        } else {
            0
        }),
        1 <= m <= 12,
        doy == before + d - 1,
        before == (if m == 3 {
            0int
        } else if m == 4 {
            31
        } else if m == 5 {
            61
        } else if m == 6 {
            92
        } else if m == 7 {
            122
        } else if m == 8 {
            153
        } else if m == 9 {
            184
        } else if m == 10 {
            214
        } else if m == 11 {
            245
        } else if m == 12 {
            275
        } else if m == 1 {
            306
        } else {
            337
        }),
    ensures
        day_number(y, m, d) == era * 146_097 + march_start(yoe) + doy - 719_468,
{
    reveal_with_fuel(month_start, 13);
    assert(leaps_before(1970) == 477);
    if m <= 2 {
        assert((y - 1) / 4 == 100 * era + yoe / 4);
        assert((y - 1) / 100 == 4 * era + yoe / 100);
        assert((y - 1) / 400 == era);
    } else {
        // the leap day of the year itself falls before March
        assert(y == 400 * era + yoe);
        let leap: int = if is_leap(y) {
            1
        } else {
            0
        };
        assert(leaps_before(y) + leap == y / 4 - y / 100 + y / 400);
        assert(y / 4 == 100 * era + yoe / 4);
        assert(y / 100 == 4 * era + yoe / 100);
        assert(y / 400 == era);
    }
}

/// The year of an era that a century, four years of it and a year of those make.
proof fn lemma_year_of_era(c: int, q: int, a: int, doe: int, doy: int)
    requires
        0 <= c <= 3,
        0 <= q <= 24,
        0 <= a <= 3,
        doe == c * 36_524 + q * 1_461 + a * 365 + doy,
    ensures
        ({
            let yoe = 100 * c + 4 * q + a;
            0 <= yoe < 400 && yoe / 4 == 25 * c + q && yoe / 100 == c && doe == march_start(yoe)
                + doy
        }),
{
}

/// The 366th day is a leap day: the year is the fourth of its four and not the last of
/// a century, unless it is the last of the era.
proof fn lemma_leap_day(era: int, c: int, q: int, a: int)
    requires
        0 <= c <= 3,
        0 <= q <= 24,
        a == 3,
        q == 24 ==> c == 3,
    ensures
        is_leap(400 * era + 100 * c + 4 * q + a + 1),
{
    let year = 400 * era + 100 * c + 4 * q + a + 1;
    assert(year % 4 == 0);
    if q == 24 {
        assert(year % 400 == 0);
    } else {
        assert(year % 100 == 4 * q + 4);
    }
}

/// The day of the calendar with a day number.
#[verifier::rlimit(60)]
fn civil(days: i64) -> (r: Day)
    requires
        -200_000_000_000_000 <= days <= 200_000_000_000_000,
    ensures
        is_day(r.year as int, r.month as int, r.day as int),
        day_number(r.year as int, r.month as int, r.day as int) == days,
{
    let z: i64 = days + 719_468;
    let era: i64 = number::floor_div(z as i128, 146_097) as i64;
    let doe: i64 = z - era * 146_097;
    assert(0 <= doe < 146_097);
    let mut c: i64 = doe / 36_524;
    if c > 3 {
        c = 3;
    }
    let in_century: i64 = doe - c * 36_524;
    assert(0 <= c <= 3 && 0 <= in_century <= 36_524);
    assert(in_century == 36_524 ==> c == 3);
    let q: i64 = in_century / 1_461;
    let in_four: i64 = in_century - q * 1_461;
    assert(0 <= q <= 24 && 0 <= in_four <= 1_460);
    assert(q == 24 && in_four == 1_460 ==> in_century == 36_524);
    let mut a: i64 = in_four / 365;
    if a > 3 {
        a = 3;
    }
    let doy: i64 = in_four - a * 365;
    assert(0 <= a <= 3 && 0 <= doy <= 365);
    assert(doy == 365 ==> a == 3 && in_four == 1_460);
    let yoe: i64 = 100 * c + 4 * q + a;
    proof {
        lemma_year_of_era(c as int, q as int, a as int, doe as int, doy as int);
    }
    let (month, before): (u64, i64) = if doy < 31 {
        (3, 0)
    } else if doy < 61 {
        (4, 31)
    } else if doy < 92 {
        (5, 61)
    } else if doy < 122 {
        (6, 92)
    } else if doy < 153 {
        (7, 122)
    } else if doy < 184 {
        (8, 153)
    } else if doy < 214 {
        (9, 184)
    } else if doy < 245 {
        (10, 214)
    } else if doy < 275 {
        (11, 245)
    } else if doy < 306 {
        (12, 275)
    } else if doy < 337 {
        (1, 306)
    } else {
        (2, 337)
    };
    let base: i64 = era * 400 + yoe;
    let year: i64 = if month <= 2 {
        base + 1
    } else {
        base
    };
    let day: u64 = (doy - before + 1) as u64;
    proof {
        lemma_shifted(
            era as int,
            yoe as int,
            doy as int,
            year as int,
            month as int,
            day as int,
            before as int,
        );
        if doy == 365 {
            lemma_leap_day(era as int, c as int, q as int, a as int);
        }
    }
    Day { year, month, day }
}

fn weekday_of(k: i64) -> (r: &'static str)
    requires
        0 <= k < 7,
    ensures
        r@ == weekday(k as int),
{
    if k == 0 {
        "Thursday"
    } else if k == 1 {
        "Friday"
    } else if k == 2 {
        "Saturday"
    } else if k == 3 {
        "Sunday"
    } else if k == 4 {
        "Monday"
    } else if k == 5 {
        "Tuesday"
    } else {
        "Wednesday"
    }
}

fn month_of(m: u64) -> (r: &'static str)
    requires
        1 <= m <= 12,
    ensures
        r@ == month_name(m as int),
{
    if m == 1 {
        "January"
    } else if m == 2 {
        "February"
    } else if m == 3 {
        "March"
    } else if m == 4 {
        "April"
    } else if m == 5 {
        "May"
    } else if m == 6 {
        "June"
    } else if m == 7 {
        "July"
    } else if m == 8 {
        "August"
    } else if m == 9 {
        "September"
    } else if m == 10 {
        "October"
    } else if m == 11 {
        "November"
    } else {
        "December"
    }
}

/// The stamp of an instant, given in seconds from the start of 1970.
pub fn format_spef_date(epoch_secs: i64) -> (r: String)
    ensures
        is_stamp(r@, epoch_secs as int),
{
    let days: i64 = number::floor_div(epoch_secs as i128, 86_400) as i64;
    let secs: i64 = (epoch_secs as i128 - days as i128 * 86_400) as i64;
    let ghost t = epoch_secs as int;
    assert(days == t / 86_400 && secs == t % 86_400);
    let date = civil(days);
    let wd: i64 = days - (number::floor_div(days as i128, 7) as i64) * 7;
    let mut out = number::padded_string((secs / 3600) as u64, 2);
    out.append(":");
    out.append(number::padded_string(((secs % 3600) / 60) as u64, 2).as_str());
    out.append(":");
    out.append(number::padded_string((secs % 60) as u64, 2).as_str());
    out.append(" ");
    out.append(weekday_of(wd));
    out.append(" ");
    out.append(month_of(date.month));
    out.append(" ");
    out.append(number::padded_string(date.day, 2).as_str());
    out.append(", ");
    out.append(text::int_string(date.year).as_str());
    assert(out@ == stamp(
        t % 86_400,
        (t / 86_400) % 7,
        date.year as int,
        date.month as int,
        date.day as int,
    ));
    assert(day_number(date.year as int, date.month as int, date.day as int) == t / 86_400);
    out
}

/// The instant that a setting names, if it names one.
pub open spec fn setting_secs(setting: Option<Seq<char>>) -> Option<int> {
    match setting {
        Some(s) => match text::int_value(text::trim(s)) {
            Some(n) => if i64::MIN <= n <= i64::MAX {
                Some(n)
            } else {
                None
            },
            None => None,
        },
        None => None,
    }
}

/// The stamp to write: the explicit one, else that of the instant which the
/// setting names, else that of the current time (seconds from the start of
/// 1970), if there is a clock. A setting that names no instant is ignored.
pub fn resolve(explicit: Option<&str>, setting: Option<&str>, now: Option<i64>) -> (r: Option<
    String,
>)
    ensures
        match explicit {
            Some(d) => r is Some && r->0@ == d@,
            None => match setting_secs(
                match setting {
                    Some(s) => Some(s@),
                    None => None,
                },
            ) {
                Some(secs) => r is Some && is_stamp(r->0@, secs),
                None => match now {
                    Some(secs) => r is Some && is_stamp(r->0@, secs as int),
                    None => r is None,
                },
            },
        },
{
    if let Some(d) = explicit {
        return Some(d.to_owned());
    }
    if let Some(s) = setting {
        if let Some(secs) = text::parse_int(&text::trimmed(&text::chars_of(s))) {
            return Some(format_spef_date(secs));
        }
    }
    match now {
        Some(secs) => Some(format_spef_date(secs)),
        None => None,
    }
}

} // verus!
