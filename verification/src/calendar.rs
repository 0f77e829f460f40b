//! The proleptic Gregorian calendar: civil dates and day numbers.

use vstd::prelude::*;

verus! {

/// Leap years.
pub open spec fn is_leap(y: int) -> bool {
    y % 4 == 0 && (y % 100 != 0 || y % 400 == 0)
}

/// How many days a month has.
pub open spec fn month_len(y: int, m: int) -> int {
    if m == 2 {
        if is_leap(y) {
            29
        } else {
            28
        }
    } else if m == 4 || m == 6 || m == 9 || m == 11 {
        30
    } else {
        31
    }
}

/// A date that the calendar has.
pub open spec fn valid_date(y: int, m: int, d: int) -> bool {
    1 <= m <= 12 && 1 <= d <= month_len(y, m)
}

/// Days before a year that starts in March, counted from 1 March of year 0.
pub open spec fn days_before(y: int) -> int {
    365 * y + y / 4 - y / 100 + y / 400
}

/// The number of a day, counted from 1970-01-01. Years start in March here, so that a leap day
/// is the last of its year.
pub open spec fn day_number(y: int, m: int, d: int) -> int {
    let march_year = if m <= 2 {
        y - 1
    } else {
        y
    };
    let mp = (m + 9) % 12;
    days_before(march_year) + (153 * mp + 2) / 5 + d - 1 - 719468
}

/// 1970-01-01 is day 0.
pub proof fn law_epoch()
    ensures
        day_number(1970, 1, 1) == 0,
{
}

/// The day after a date has the next number: within a month, across months and across years.
pub proof fn law_next_day(y: int, m: int, d: int)
    requires
        valid_date(y, m, d),
    ensures
        d < month_len(y, m) ==> day_number(y, m, d + 1) == day_number(y, m, d) + 1,
        d == month_len(y, m) && m < 12 ==> day_number(y, m + 1, 1) == day_number(y, m, d) + 1,
        d == month_len(y, m) && m == 12 ==> day_number(y + 1, 1, 1) == day_number(y, m, d) + 1,
{
}

/// The year of the era that a day falls in, and the day of that year.
proof fn lemma_year_of_era(doe: int)
    requires
        0 <= doe < 146097,
    ensures
        ({
            let yoe = (doe - doe / 1460 + doe / 36524 - doe / 146096) / 365;
            let doy = doe - (365 * yoe + yoe / 4 - yoe / 100);
            &&& 0 <= yoe <= 399
            &&& 0 <= doy <= 365
            &&& doy == 365 ==> is_leap(yoe + 1)
        }),
{
}

/// Days since 1970-01-01 from a civil date. Days past the end of a month count on into the next.
pub fn days_from_civil(y: i64, m: i64, d: i64) -> (r: i64)
    requires
        -1_000_000_000 <= y <= 1_000_000_000,
        1 <= m <= 12,
        1 <= d <= 31,
    ensures
        r == day_number(y as int, m as int, d as int),
{
    let y: i64 = if m <= 2 {
        y - 1
    } else {
        y
    };
    let era: i64 = (if y >= 0 {
        y
    } else {
        y - 399
    }) / 400;
    assert(era == (y as int) / 400) by {
        if y < 0 {
            lemma_floor_400(y as int);
        }
    }
    let yoe: i64 = y - era * 400;
    let mp: i64 = (m + 9) % 12;
    let doy: i64 = (153 * mp + 2) / 5 + d - 1;
    let doe: i64 = yoe * 365 + yoe / 4 - yoe / 100 + doy;
    era * 146_097 + doe - 719_468
}

/// Truncating division after a shift is floor division.
proof fn lemma_floor_400(y: int)
    requires
        y < 0,
    ensures
        y / 400 == -((399 - y) / 400),
{
}

proof fn lemma_floor_146097(z: int)
    requires
        z < 0,
    ensures
        z / 146097 == -((146096 - z) / 146097),
{
}

/// Civil date from days since 1970-01-01.
pub fn civil_from_days(z: i64) -> (r: (i64, i64, i64))
    requires
        z <= i64::MAX - 719_468,
    ensures
        valid_date(r.0 as int, r.1 as int, r.2 as int),
        day_number(r.0 as int, r.1 as int, r.2 as int) == z,
        -26_000_000_000_000_000 <= r.0 <= 26_000_000_000_000_000,
{
    let z: i64 = z + 719_468;
    let era: i64 = (if z >= 0 {
        z
    } else {
        z - 146_096
    }) / 146_097;
    assert(era == (z as int) / 146097) by {
        if z < 0 {
            lemma_floor_146097(z as int);
        }
    }
    let doe: i64 = z - era * 146_097;
    proof {
        lemma_year_of_era(doe as int);
    }
    let yoe: i64 = (doe - doe / 1_460 + doe / 36_524 - doe / 146_096) / 365;
    let y: i64 = yoe + era * 400;
    let doy: i64 = doe - (365 * yoe + yoe / 4 - yoe / 100);
    let mp: i64 = (5 * doy + 2) / 153;
    let d: i64 = doy - (153 * mp + 2) / 5 + 1;
    let m: i64 = if mp < 10 {
        mp + 3
    } else {
        mp - 9
    };
    proof {
        lemma_month_of_year(doy as int);
        lemma_civil(era as int, yoe as int, doy as int);
    }
    (if m <= 2 {
        y + 1
    } else {
        y
    }, m, d)
}

/// The date of a day of an era's year.
proof fn lemma_civil(era: int, yoe: int, doy: int)
    requires
        0 <= yoe <= 399,
        0 <= doy <= 365,
        doy == 365 ==> is_leap(yoe + 1),
    ensures
        ({
            let mp = (5 * doy + 2) / 153;
            let d = doy - (153 * mp + 2) / 5 + 1;
            let m = if mp < 10 {
                mp + 3
            } else {
                mp - 9
            };
            let y = if m <= 2 {
                yoe + era * 400 + 1
            } else {
                yoe + era * 400
            };
            &&& valid_date(y, m, d)
            &&& day_number(y, m, d) == era * 146097 + 365 * yoe + yoe / 4 - yoe / 100 + doy - 719468
        }),
{
    lemma_era_leap(yoe, era);
    lemma_month_of_year(doy);
    lemma_days_before_era(era, yoe);
}

/// An era has 146097 days.
proof fn lemma_days_before_era(era: int, yoe: int)
    requires
        0 <= yoe <= 399,
    ensures
        days_before(yoe + era * 400) == era * 146097 + 365 * yoe + yoe / 4 - yoe / 100,
{
}

/// A whole number of eras does not change whether a year is leap.
proof fn lemma_era_leap(yoe: int, era: int)
    requires
        0 <= yoe <= 399,
    ensures
        is_leap(yoe + era * 400 + 1) == is_leap(yoe + 1),
{
}

/// The month and day of a day of the year that starts in March.
proof fn lemma_month_of_year(doy: int)
    requires
        0 <= doy <= 365,
    ensures
        ({
            let mp = (5 * doy + 2) / 153;
            let d = doy - (153 * mp + 2) / 5 + 1;
            let m = if mp < 10 {
                mp + 3
            } else {
                mp - 9
            };
            &&& 0 <= mp <= 11
            &&& (m + 9) % 12 == mp
            &&& 1 <= d <= 31
            &&& (m == 4 || m == 6 || m == 9 || m == 11) ==> d <= 30
            &&& m == 2 ==> d <= 29
            &&& m == 2 && d == 29 ==> doy == 365
        }),
{
}

/// Every day has a date.
pub proof fn law_every_day_has_a_date(day: int)
    ensures
        exists|y: int, m: int, d: int| #[trigger]
            valid_date(y, m, d) && day_number(y, m, d) == day,
{
    let z = day + 719468;
    let era = z / 146097;
    let doe = z - era * 146097;
    lemma_year_of_era(doe);
    let yoe = (doe - doe / 1460 + doe / 36524 - doe / 146096) / 365;
    let doy = doe - (365 * yoe + yoe / 4 - yoe / 100);
    let mp = (5 * doy + 2) / 153;
    let d = doy - (153 * mp + 2) / 5 + 1;
    let m = if mp < 10 {
        mp + 3
    } else {
        mp - 9
    };
    let y = if m <= 2 {
        yoe + era * 400 + 1
    } else {
        yoe + era * 400
    };
    lemma_civil(era, yoe, doy);
    assert(valid_date(y, m, d) && day_number(y, m, d) == day);
}

/// A day number belongs to one date: numbers tell dates apart.
pub proof fn law_dates_are_unique(y: int, m: int, d: int, y2: int, m2: int, d2: int)
    requires
        valid_date(y, m, d),
        valid_date(y2, m2, d2),
        day_number(y, m, d) == day_number(y2, m2, d2),
    ensures
        y == y2,
        m == m2,
        d == d2,
{
    let a = if m <= 2 {
        y - 1
    } else {
        y
    };
    let b = if m2 <= 2 {
        y2 - 1
    } else {
        y2
    };
    lemma_day_of_year(y, m, d);
    lemma_day_of_year(y2, m2, d2);
    lemma_years_apart(a, b);
    lemma_years_apart(b, a);
    assert(a == b);
    lemma_months_apart((m + 9) % 12, (m2 + 9) % 12, d, d2, m, m2, y, y2);
}

/// A date falls inside its March year.
proof fn lemma_day_of_year(y: int, m: int, d: int)
    requires
        valid_date(y, m, d),
    ensures
        ({
            let a = if m <= 2 {
                y - 1
            } else {
                y
            };
            days_before(a) <= day_number(y, m, d) + 719468 < days_before(a + 1)
        }),
{
}

/// Later March years start later.
proof fn lemma_years_apart(a: int, b: int)
    ensures
        a < b ==> days_before(a + 1) <= days_before(b),
{
    if a + 1 < b {
        assert(days_before(b) - days_before(a + 1) >= 0) by {
            assert(365 * (b - a - 1) + (b / 4 - (a + 1) / 4) - (b / 100 - (a + 1) / 100) + (b / 400
                - (a + 1) / 400) >= 0);
        }
    }
}

/// Within one March year the day of the year tells month and day.
proof fn lemma_months_apart(
    mp: int,
    mp2: int,
    d: int,
    d2: int,
    m: int,
    m2: int,
    y: int,
    y2: int,
)
    requires
        valid_date(y, m, d),
        valid_date(y2, m2, d2),
        mp == (m + 9) % 12,
        mp2 == (m2 + 9) % 12,
        (153 * mp + 2) / 5 + d == (153 * mp2 + 2) / 5 + d2,
    ensures
        m == m2,
        d == d2,
{
    assert(m == 1 || m == 2 || m == 3 || m == 4 || m == 5 || m == 6 || m == 7 || m == 8 || m == 9
        || m == 10 || m == 11 || m == 12);
    assert(m2 == 1 || m2 == 2 || m2 == 3 || m2 == 4 || m2 == 5 || m2 == 6 || m2 == 7 || m2 == 8
        || m2 == 9 || m2 == 10 || m2 == 11 || m2 == 12);
}

/// Days from 0000-01-01 through 9999-12-31 have four-digit years.
pub proof fn lemma_four_digit_years(y: int, m: int, d: int)
    requires
        valid_date(y, m, d),
        -719_528 <= day_number(y, m, d) <= 2_932_896,
    ensures
        0 <= y <= 9999,
{
    let a = if m <= 2 {
        y - 1
    } else {
        y
    };
    lemma_day_of_year(y, m, d);
    lemma_years_apart(a, -1);
    lemma_years_apart(9999, a);
}

} // verus!
