//! Dates of the Gregorian calendar.
use vstd::prelude::*;

verus! {

/// Whether `year` is a leap year.
pub open spec fn is_leap(year: int) -> bool {
    year % 4 == 0 && (year % 100 != 0 || year % 400 == 0)
}

/// The length of a month.
pub open spec fn days_in_month(year: int, month: int) -> int {
    if month == 2 {
        if is_leap(year) {
            29
        } else {
            28
        }
    } else if month == 4 || month == 6 || month == 9 || month == 11 {
        30
    } else {
        31
    }
}

/// The days from the start of the year 0 to the start of `year`.
pub open spec fn days_before_year(year: int) -> int {
    365 * year + (year - 1) / 4 - (year - 1) / 100 + (year - 1) / 400 + 1
}

/// The days from the start of a year to the start of one of its months.
pub open spec fn days_before_month(year: int, month: int) -> int
    decreases month,
{
    if month <= 1 {
        0
    } else {
        days_before_month(year, month - 1) + days_in_month(year, month - 1)
    }
}

/// Whether the calendar has this date.
pub open spec fn is_date(year: int, month: int, day: int) -> bool {
    1 <= month <= 12 && 1 <= day <= days_in_month(year, month)
}

/// The days from the first day of the year 0 to a date.
pub open spec fn day_number(year: int, month: int, day: int) -> int {
    days_before_year(year) + days_before_month(year, month) + day - 1
}

/// The days from 1 January 1970 to a date.
pub open spec fn days_since_epoch(year: int, month: int, day: int) -> int {
    day_number(year, month, day) - day_number(1970, 1, 1)
}

/// The days from 1 March of the year 0 to 1 March of `year`.
#[verifier::opaque]
spec fn march_first(year: int) -> int {
    365 * year + year / 4 - year / 100 + year / 400
}

proof fn year_of_era(doe: u32)
    by (bit_vector)
    requires
        doe < 146097,
    ensures
        ({
            let yoe = (doe - doe / 1460 + doe / 36524 - doe / 146096) / 365;
            &&& yoe < 400
            &&& 365 * yoe + yoe / 4 - yoe / 100 <= doe
            &&& doe < 365 * (yoe + 1) + (yoe + 1) / 4 - (yoe + 1) / 100 + (yoe + 1) / 400
        }),
{
}

/// The table of the days before each month.
proof fn month_table(year: int, month: int)
    requires
        1 <= month <= 13,
    ensures
        ({
            let leap_day: int = if is_leap(year) {
                1
            } else {
                0
            };
            days_before_month(year, month) == if month == 1 {
                0
            } else if month == 2 {
                31
            } else if month == 3 {
                59 + leap_day
            } else if month == 4 {
                90 + leap_day
            } else if month == 5 {
                120 + leap_day
            } else if month == 6 {
                151 + leap_day
            } else if month == 7 {
                181 + leap_day
            } else if month == 8 {
                212 + leap_day
            } else if month == 9 {
                243 + leap_day
            } else if month == 10 {
                273 + leap_day
            } else if month == 11 {
                304 + leap_day
            } else if month == 12 {
                334 + leap_day
            } else {
                365 + leap_day
            }
        }),
{
    reveal_with_fuel(days_before_month, 13);
}

proof fn quotient_step_4(n: int)
    ensures
        n / 4 - (n - 1) / 4 == if n % 4 == 0 { 1int } else { 0int },
{
}

proof fn quotient_step_100(n: int)
    ensures
        n / 100 - (n - 1) / 100 == if n % 100 == 0 { 1int } else { 0int },
{
}

proof fn quotient_step_400(n: int)
    ensures
        n / 400 - (n - 1) / 400 == if n % 400 == 0 { 1int } else { 0int },
{
}

proof fn multiples(n: int)
    ensures
        n % 400 == 0 ==> n % 100 == 0,
        n % 100 == 0 ==> n % 4 == 0,
{
}

proof fn quotient_step(n: int)
    ensures
        n / 4 - n / 100 + n / 400 == (n - 1) / 4 - (n - 1) / 100 + (n - 1) / 400 + if is_leap(n) {
            1int
        } else {
            0int
        },
{
    quotient_step_4(n);
    quotient_step_100(n);
    quotient_step_400(n);
    multiples(n);
}

/// A year is 365 days long, a leap year 366.
pub proof fn year_length(year: int)
    ensures
        days_before_year(year + 1) == days_before_year(year) + if is_leap(year) {
            366int
        } else {
            365int
        },
{
    quotient_step(year);
}

/// The days from 1 March to 1 March, counted from the year 0 and within 400 years.
proof fn march_first_in_era(era: int, yoe: int)
    ensures
        march_first(400 * era + yoe) == 146097 * era + march_first(yoe),
{
    reveal(march_first);
    assert((400 * era + yoe) / 4 == 100 * era + yoe / 4);
    assert((400 * era + yoe) / 100 == 4 * era + yoe / 100);
    assert((400 * era + yoe) / 400 == era + yoe / 400);
}

/// The month and day, and the year that they lie in, of the day `doy` days after 1 March
/// of `y`.
proof fn date_after_march(y: int, doy: int, mp: int, day: int, month: int, year: int)
    requires
        0 <= doy < march_first(y + 1) - march_first(y),
        mp == (5 * doy + 2) / 153,
        day == doy - (153 * mp + 2) / 5 + 1,
        month == if mp < 10 { mp + 3 } else { mp - 9 },
        year == if month <= 2 { y + 1 } else { y },
    ensures
        is_date(year, month, day),
        day_number(year, month, day) == march_first(y) + 60 + doy,
{
    reveal(march_first);
    quotient_step(y);
    quotient_step(y + 1);
    assert(march_first(y) + 60 == days_before_year(y) + if is_leap(y) { 60int } else { 59int });
    assert(march_first(y) + 366 == days_before_year(y + 1));
    assert(doy <= 365);
    assert(doy == 365 ==> is_leap(y + 1));
    assert(0 <= mp <= 11);
    month_table(year, month);
    assert(mp == 0 || mp == 1 || mp == 2 || mp == 3 || mp == 4 || mp == 5 || mp == 6 || mp == 7
        || mp == 8 || mp == 9 || mp == 10 || mp == 11);
}

/// The 400-year era that a day after 1 March of the year 0 lies in, and the day in it.
fn split_era(z: i64) -> (out: (i64, i64))
    requires
        z >= i64::MIN + 146096,
    ensures
        z == 146097 * out.0 + out.1,
        0 <= out.1 < 146097,
{
    let era: i64 = (if z >= 0 {
        z
    } else {
        z - 146096
    }) / 146097;
    assert(146097 * era <= z < 146097 * era + 146097);
    (era, z - era * 146097)
}

/// The year, counted from March to February, and the day in it, of the day `doe` of a
/// 400-year era.
fn split_year(doe: i64) -> (out: (i64, i64))
    requires
        0 <= doe < 146097,
    ensures
        0 <= out.0 < 400,
        0 <= out.1 <= 365,
        doe == march_first(out.0 as int) + out.1,
        doe < march_first(out.0 + 1),
{
    let yoe: i64 = (doe - doe / 1460 + doe / 36524 - doe / 146096) / 365;
    proof {
        reveal(march_first);
        year_of_era(doe as u32);
        quotient_step(yoe + 1);
    }
    (yoe, doe - (365 * yoe + yoe / 4 - yoe / 100))
}

/// The date that lies `days` days after 1 January 1970: year, month and day.
pub fn epoch_to_ymd(days: i64) -> (date: (i64, i64, i64))
    requires
        days <= i64::MAX - 719468,
    ensures
        is_date(date.0 as int, date.1 as int, date.2 as int),
        days_since_epoch(date.0 as int, date.1 as int, date.2 as int) == days,
{
    let z: i64 = days + 719468;
    let (era, doe) = split_era(z);
    let (yoe, doy) = split_year(doe);
    proof {
        march_first_in_era(era as int, yoe as int);
        march_first_in_era(era as int, yoe + 1);
    }
    let y: i64 = yoe + era * 400;
    let mp: i64 = (5 * doy + 2) / 153;
    let day: i64 = doy - (153 * mp + 2) / 5 + 1;
    let month: i64 = if mp < 10 {
        mp + 3
    } else {
        mp - 9
    };
    let year: i64 = if month <= 2 {
        y + 1
    } else {
        y
    };
    proof {
        date_after_march(y as int, doy as int, mp as int, day as int, month as int, year as int);
        month_table(1970, 1);
    }
    (year, month, day)
}

/// The calendar gives every day one date only.
pub proof fn dates_are_unique(y1: int, m1: int, d1: int, y2: int, m2: int, d2: int)
    requires
        is_date(y1, m1, d1),
        is_date(y2, m2, d2),
        days_since_epoch(y1, m1, d1) == days_since_epoch(y2, m2, d2),
    ensures
        y1 == y2,
        m1 == m2,
        d1 == d2,
{
    month_table(y1, m1);
    month_table(y2, m2);
    month_table(y1, m1 + 1);
    month_table(y2, m2 + 1);
    year_length(y1);
    year_length(y2);
    assert(days_before_month(y1, m1 + 1) <= days_before_year(y1 + 1) - days_before_year(y1));
    assert(days_before_month(y2, m2 + 1) <= days_before_year(y2 + 1) - days_before_year(y2));
    assert(y1 == y2) by {
        if y1 < y2 {
            years_ascend(y1 + 1, y2);
        }
        if y2 < y1 {
            years_ascend(y2 + 1, y1);
        }
    }
    if m1 < m2 {
        months_ascend(y1, m1 + 1, m2);
    }
    if m2 < m1 {
        months_ascend(y1, m2 + 1, m1);
    }
}

proof fn years_ascend(y1: int, y2: int)
    requires
        y1 <= y2,
    ensures
        days_before_year(y1) <= days_before_year(y2),
    decreases y2 - y1,
{
    if y1 < y2 {
        years_ascend(y1, y2 - 1);
        year_length(y2 - 1);
    }
}

proof fn months_ascend(year: int, m1: int, m2: int)
    requires
        1 <= m1 <= m2,
    ensures
        days_before_month(year, m1) <= days_before_month(year, m2),
    decreases m2 - m1,
{
    if m1 < m2 {
        months_ascend(year, m1, m2 - 1);
    }
}

/// Every day has a date, and from 1970 on the year is 1970 or later.
pub proof fn every_day_has_a_date(days: int) -> (date: (int, int, int))
    ensures
        is_date(date.0, date.1, date.2),
        days_since_epoch(date.0, date.1, date.2) == days,
        days >= 0 ==> date.0 >= 1970,
{
    let z = days + 719468;
    let era = z / 146097;
    let doe = z % 146097;
    let yoe = (doe - doe / 1460 + doe / 36524 - doe / 146096) / 365;
    year_of_era(doe as u32);
    let y = 400 * era + yoe;
    let doy = doe - (365 * yoe + yoe / 4 - yoe / 100);
    assert(0 <= doy < march_first(y + 1) - march_first(y) && march_first(y) + doy == z) by {
        reveal(march_first);
        march_first_in_era(era, yoe);
        march_first_in_era(era, yoe + 1);
    }
    let mp = (5 * doy + 2) / 153;
    let day = doy - (153 * mp + 2) / 5 + 1;
    let month = if mp < 10 {
        mp + 3
    } else {
        mp - 9
    };
    let year = if month <= 2 {
        y + 1
    } else {
        y
    };
    date_after_march(y, doy, mp, day, month, year);
    month_table(1970, 1);
    if days >= 0 && year < 1970 {
        month_table(year, month);
        month_table(year, month + 1);
        year_length(year);
        years_ascend(year + 1, 1970);
        assert(days_before_month(year, month + 1) <= days_before_year(year + 1) - days_before_year(
            year,
        ));
    }
    (year, month, day)
}

/// The dates of the calendar: thirty days hath September, April, June and November, all the
/// rest have thirty-one, but for February, which has twenty-eight, and one more in every
/// fourth year, though not in every hundredth, unless it is a four-hundredth.
pub proof fn months_have_their_lengths(year: int, month: int, day: int)
    ensures
        is_date(year, month, day) <==> 1 <= month <= 12 && 1 <= day && day <= if month == 2 {
            if year % 4 == 0 && (year % 100 != 0 || year % 400 == 0) {
                29int
            } else {
                28int
            }
        } else if month == 4 || month == 6 || month == 9 || month == 11 {
            30int
        } else {
            31int
        },
{
}

/// The count of days starts on 1 January 1970 and goes up by one from each date to the next:
/// to the next day of the month, to the first of the next month, or to the first of the next
/// year.
pub proof fn days_follow_one_another(year: int, month: int, day: int)
    requires
        is_date(year, month, day),
    ensures
        days_since_epoch(1970, 1, 1) == 0,
        is_date(year, month, day + 1) ==> days_since_epoch(year, month, day + 1)
            == days_since_epoch(year, month, day) + 1,
        !is_date(year, month, day + 1) && month < 12 ==> is_date(year, month + 1, 1)
            && days_since_epoch(year, month + 1, 1) == days_since_epoch(year, month, day) + 1,
        !is_date(year, month, day + 1) && month == 12 ==> is_date(year + 1, 1, 1)
            && days_since_epoch(year + 1, 1, 1) == days_since_epoch(year, month, day) + 1,
{
    month_table(year, month);
    month_table(year, month + 1);
    month_table(year, 13);
    month_table(year + 1, 1);
    year_length(year);
}

} // verus!
