//! Dates of the proleptic Gregorian calendar, counted in days from 1 January
//! 1970.

use vstd::prelude::*;

verus! {

pub open spec fn is_leap(year: int) -> bool {
    year % 4 == 0 && (year % 100 != 0 || year % 400 == 0)
}

/// How many days of the calendar lie before `year`, from the year 1 on.
pub open spec fn days_before_year(year: int) -> int {
    365 * (year - 1) + (year - 1) / 4 - (year - 1) / 100 + (year - 1) / 400
}

/// How many days of an ordinary year lie before month `m`.
pub open spec fn ordinary_days_before(m: int) -> int {
    if m <= 1 {
        0
    } else if m == 2 {
        31
    } else if m == 3 {
        59
    } else if m == 4 {
        90
    } else if m == 5 {
        120
    } else if m == 6 {
        151
    } else if m == 7 {
        181
    } else if m == 8 {
        212
    } else if m == 9 {
        243
    } else if m == 10 {
        273
    } else if m == 11 {
        304
    } else if m == 12 {
        334
    } else {
        365
    }
}

/// How many days of `year` lie before month `m`.
pub open spec fn days_before_month(year: int, m: int) -> int {
    ordinary_days_before(m) + if m > 2 && is_leap(year) {
        1int
    } else {
        0
    }
}

/// How many days month `m` of `year` has.
pub open spec fn month_len(year: int, m: int) -> int {
    days_before_month(year, m + 1) - days_before_month(year, m)
}

/// A day that the calendar has.
pub open spec fn is_date(year: int, month: int, day: int) -> bool {
    1 <= month <= 12 && 1 <= day <= month_len(year, month)
}

/// How many days after 1 January 1970 a date lies.
pub open spec fn day_number(year: int, month: int, day: int) -> int {
    days_before_year(year) + days_before_month(year, month) + day - 1 - days_before_year(1970)
}

/// The date that lies `days` after 1 January 1970: year, month and day.
pub open spec fn date_at(days: int) -> (int, int, int) {
    choose|date: (int, int, int)| #[trigger]
        is_date(date.0, date.1, date.2) && day_number(date.0, date.1, date.2) == days
}

/// The next year begins as many days later as this one has.
proof fn lemma_year_len(year: int)
    ensures
        days_before_year(year + 1) == days_before_year(year) + days_before_month(year, 13),
{
    let p = year - 1;
    assert(year / 4 == p / 4 + if year % 4 == 0 {
        1int
    } else {
        0
    });
    assert(year / 100 == p / 100 + if year % 100 == 0 {
        1int
    } else {
        0
    });
    assert(year / 400 == p / 400 + if year % 400 == 0 {
        1int
    } else {
        0
    });
    assert(year % 400 == 0 ==> year % 100 == 0);
    assert(year % 100 == 0 ==> year % 4 == 0);
}

/// Later years begin later.
proof fn lemma_years_ascend(a: int, b: int)
    requires
        a <= b,
    ensures
        days_before_year(a) + 365 * (b - a) <= days_before_year(b),
    decreases b - a,
{
    if a < b {
        lemma_years_ascend(a, b - 1);
        lemma_year_len(b - 1);
    }
}

/// Within a year, a date lies before the next year.
proof fn lemma_within_year(year: int, month: int, day: int)
    requires
        is_date(year, month, day),
    ensures
        days_before_year(year) <= day_number(year, month, day) + days_before_year(1970)
            < days_before_year(year + 1),
{
    lemma_year_len(year);
}

/// A day has one date.
pub proof fn law_a_day_has_one_date(y1: int, m1: int, d1: int, y2: int, m2: int, d2: int)
    requires
        is_date(y1, m1, d1),
        is_date(y2, m2, d2),
        day_number(y1, m1, d1) == day_number(y2, m2, d2),
    ensures
        y1 == y2,
        m1 == m2,
        d1 == d2,
{
    lemma_within_year(y1, m1, d1);
    lemma_within_year(y2, m2, d2);
    if y1 < y2 {
        lemma_years_ascend(y1 + 1, y2);
    } else if y2 < y1 {
        lemma_years_ascend(y2 + 1, y1);
    }
}

/// The date of a day is the one that lies so many days on.
pub proof fn lemma_date_at(year: int, month: int, day: int)
    requires
        is_date(year, month, day),
    ensures
        date_at(day_number(year, month, day)) == (year, month, day),
{
    let days = day_number(year, month, day);
    let date = (year, month, day);
    assert(is_date(date.0, date.1, date.2) && day_number(date.0, date.1, date.2) == days);
    let other = date_at(days);
    law_a_day_has_one_date(year, month, day, other.0, other.1, other.2);
}

/// The year that began on 1 March at or before day `z`, counted from 1 March
/// of the year 0, and the day within it. Such years end with the leap day, if
/// there is one.
fn march_year(z: u64) -> (r: (u64, u64))
    requires
        z <= 0x2_0000_0000_0000,
    ensures
        days_before_year(r.0 + 1) + r.1 == z,
        r.1 <= 365,
        r.1 == 365 ==> is_leap(r.0 + 1),
        r.0 <= z,
{
    let era: u64 = z / 146_097;
    let of_era: u64 = z % 146_097;
    let century: u64 = if of_era / 36_524 > 3 {
        3
    } else {
        of_era / 36_524
    };
    let of_century: u64 = of_era - 36_524 * century;
    let quad: u64 = of_century / 1_461;
    let of_quad: u64 = of_century - 1_461 * quad;
    let in_quad: u64 = if of_quad / 365 > 3 {
        3
    } else {
        of_quad / 365
    };
    let day: u64 = of_quad - 365 * in_quad;
    let year: u64 = 400 * era + 100 * century + 4 * quad + in_quad;
    proof {
        let y = year as int;
        assert(of_century <= 36_524);
        assert(quad <= 24);
        assert(y / 4 == 100 * era + 25 * century + quad);
        assert(y / 100 == 4 * era + century);
        assert(y / 400 == era as int);
        if day == 365 {
            assert(in_quad == 3 && of_quad == 1460);
            if quad == 24 {
                assert(of_century == 36_524);
                assert(century == 3);
                assert(y + 1 == 400 * (era + 1));
            } else {
                assert((y + 1) % 4 == 0);
                assert((y + 1) % 100 == 4 * (quad + 1));
            }
        }
    }
    (year, day)
}

/// The date of day `doy` of the year that begins on 1 March of `year`.
fn from_march(year: u64, doy: u64) -> (r: (u64, u64, u64))
    requires
        year < u64::MAX,
        doy <= 365,
        doy == 365 ==> is_leap(year + 1),
    ensures
        is_date(r.0 as int, r.1 as int, r.2 as int),
        day_number(r.0 as int, r.1 as int, r.2 as int) + days_before_year(1970) + 306
            == days_before_year(year + 1) + doy,
{
    proof {
        lemma_year_len(year as int);
    }
    if doy < 31 {
        (year, 3, doy + 1)
    } else if doy < 61 {
        (year, 4, doy - 30)
    } else if doy < 92 {
        (year, 5, doy - 60)
    } else if doy < 122 {
        (year, 6, doy - 91)
    } else if doy < 153 {
        (year, 7, doy - 121)
    } else if doy < 184 {
        (year, 8, doy - 152)
    } else if doy < 214 {
        (year, 9, doy - 183)
    } else if doy < 245 {
        (year, 10, doy - 213)
    } else if doy < 275 {
        (year, 11, doy - 244)
    } else if doy < 306 {
        (year, 12, doy - 274)
    } else if doy < 337 {
        (year + 1, 1, doy - 305)
    } else {
        (year + 1, 2, doy - 336)
    }
}

/// The date that lies `days` after 1 January 1970.
pub fn date_of(days: u64) -> (r: (u64, u64, u64))
    requires
        days <= 0xffff_ffff_ffff,
    ensures
        date_at(days as int) == (r.0 as int, r.1 as int, r.2 as int),
        is_date(r.0 as int, r.1 as int, r.2 as int),
        day_number(r.0 as int, r.1 as int, r.2 as int) == days,
{
    let (year, doy) = march_year(days + 719_468);
    let (y, m, d) = from_march(year, doy);
    proof {
        assert(days_before_year(1970) == 719_162);
        lemma_date_at(y as int, m as int, d as int);
    }
    (y, m, d)
}

/// A date is found again from its day.
pub proof fn law_dates_are_found_again(year: int, month: int, day: int)
    requires
        is_date(year, month, day),
    ensures
        date_at(day_number(year, month, day)) == (year, month, day),
{
    let n = day_number(year, month, day);
    let here = (year, month, day);
    assert(is_date(here.0, here.1, here.2) && day_number(here.0, here.1, here.2) == n);
    let there = date_at(n);
    assert(is_date(there.0, there.1, there.2) && day_number(there.0, there.1, there.2) == n);
    law_a_day_has_one_date(year, month, day, there.0, there.1, there.2);
}

/// Days follow each other: within a month, from the end of one to the start of the next,
/// and over the turn of the year. The count starts with 1 January 1970.
pub proof fn law_days_follow_each_other(year: int, month: int, day: int)
    requires
        is_date(year, month, day),
        year >= 1,
    ensures
        day_number(1970, 1, 1) == 0,
        day < month_len(year, month) ==> is_date(year, month, day + 1) && day_number(
            year,
            month,
            day + 1,
        ) == day_number(year, month, day) + 1,
        day == month_len(year, month) && month < 12 ==> is_date(year, month + 1, 1) && day_number(
            year,
            month + 1,
            1,
        ) == day_number(year, month, day) + 1,
        day == month_len(year, month) && month == 12 ==> is_date(year + 1, 1, 1) && day_number(
            year + 1,
            1,
            1,
        ) == day_number(year, month, day) + 1,
{
    let y = year - 1;
    assert((y + 1) / 4 - y / 4 == if year % 4 == 0 {
        1int
    } else {
        0
    });
    assert((y + 1) / 100 - y / 100 == if year % 100 == 0 {
        1int
    } else {
        0
    });
    assert((y + 1) / 400 - y / 400 == if year % 400 == 0 {
        1int
    } else {
        0
    });
}

/// A month has as many days as it has, February by whether the year is a leap year.
pub proof fn law_months_have_their_days(year: int)
    ensures
        month_len(year, 1) == 31,
        month_len(year, 2) == if year % 4 == 0 && (year % 100 != 0 || year % 400 == 0) {
            29int
        } else {
            28
        },
        month_len(year, 3) == 31,
        month_len(year, 4) == 30,
        month_len(year, 5) == 31,
        month_len(year, 6) == 30,
        month_len(year, 7) == 31,
        month_len(year, 8) == 31,
        month_len(year, 9) == 30,
        month_len(year, 10) == 31,
        month_len(year, 11) == 30,
        month_len(year, 12) == 31,
{
}

} // verus!
