//! The calendar that a date stamp goes by: days follow each other through months and
//! years, and every one has its name.
use crate::date;
use vstd::prelude::*;

verus! {

/// Whether a year has a 29th of February.
pub open spec fn leaps(y: int) -> bool {
    y % 4 == 0 && (y % 100 != 0 || y % 400 == 0)
}

/// The last day of a month.
pub open spec fn last_day(y: int, m: int) -> int {
    if m == 2 {
        if leaps(y) {
            29
        } else {
            28
        }
    } else if m == 4 || m == 6 || m == 9 || m == 11 {
        30
    } else {
        31
    }
}

/// The day after a day.
pub open spec fn next(y: int, m: int, d: int) -> (int, int, int) {
    if d < last_day(y, m) {
        (y, m, d + 1)
    } else if m < 12 {
        (y, m + 1, 1)
    } else {
        (y + 1, 1, 1)
    }
}

/// The days are counted one by one from the first of January 1970: the day after one has
/// the number after its own, through the ends of months, of years, and of leap years.
#[verifier::rlimit(50)]
pub proof fn each_day_counts_one(y: int, m: int, d: int)
    requires
        1 <= m <= 12,
        1 <= d <= last_day(y, m),
    ensures
        date::day_number(1970, 1, 1) == 0,
        date::is_day(y, m, d),
        ({
            let n = next(y, m, d);
            date::is_day(n.0, n.1, n.2) && date::day_number(n.0, n.1, n.2) == date::day_number(
                y,
                m,
                d,
            ) + 1
        }),
{
    reveal_with_fuel(date::month_start, 14);
    assert(date::month_len(y, m) == last_day(y, m));
    assert(date::leaps_before(1970) == 477);
    if d == last_day(y, m) && m == 12 {
        date::a_year_is_its_months(y);
    }
}

/// Every day of the week and every month has its name; the first of January 1970 was a
/// Thursday.
pub proof fn days_and_months_have_their_names()
    ensures
        date::weekday(0) == "Thursday"@ && date::weekday(1) == "Friday"@ && date::weekday(2)
            == "Saturday"@ && date::weekday(3) == "Sunday"@,
        date::weekday(4) == "Monday"@ && date::weekday(5) == "Tuesday"@ && date::weekday(6)
            == "Wednesday"@,
        date::month_name(1) == "January"@ && date::month_name(2) == "February"@
            && date::month_name(3) == "March"@ && date::month_name(4) == "April"@,
        date::month_name(5) == "May"@ && date::month_name(6) == "June"@ && date::month_name(7)
            == "July"@ && date::month_name(8) == "August"@,
        date::month_name(9) == "September"@ && date::month_name(10) == "October"@
            && date::month_name(11) == "November"@ && date::month_name(12) == "December"@,
{
}

} // verus!
