//! The proleptic Gregorian calendar counted from 1970-01-01 (UTC, no leap
//! seconds): the conversion of a day count into a date, and its inverse.

use vstd::prelude::*;

verus! {

/// Gregorian leap year.
pub open spec fn spec_is_leap(year: int) -> bool {
    (year % 4 == 0 && year % 100 != 0) || year % 400 == 0
}

/// Days in a year.
pub open spec fn year_days(year: int) -> nat {
    if spec_is_leap(year) {
        366
    } else {
        365
    }
}

/// Days in month `month` (1 = January) of `year`.
pub open spec fn month_days(year: int, month: int) -> nat {
    if month == 2 {
        if spec_is_leap(year) {
            29
        } else {
            28
        }
    } else if month == 4 || month == 6 || month == 9 || month == 11 {
        30
    } else {
        31
    }
}

/// Starting in `year` with `days` days to go, skip whole years: the year
/// reached and the day of that year (0-based).
pub open spec fn year_and_rest(days: nat, year: int) -> (int, nat)
    decreases days,
{
    if days < year_days(year) {
        (year, days)
    } else {
        year_and_rest((days - year_days(year)) as nat, year + 1)
    }
}

/// Starting at `month` with `rest` days to go in `year`, skip whole
/// months: the month reached and the day of that month (0-based).
pub open spec fn month_and_rest(rest: nat, year: int, month: int) -> (int, nat)
    decreases 13 - month,
{
    if month > 12 || rest < month_days(year, month) {
        (month, rest)
    } else {
        month_and_rest((rest - month_days(year, month)) as nat, year, month + 1)
    }
}

/// The date `(year, month, day)` that lies `days` days after 1970-01-01.
pub open spec fn spec_days_to_date(days: nat) -> (int, int, int) {
    let (y, r) = year_and_rest(days, 1970);
    let (m, dr) = month_and_rest(r, y, 1);
    (y, m, dr + 1int)
}

/// Days from 1970-01-01 to January 1 of `year`.
pub open spec fn days_before_year(year: int) -> nat
    decreases year - 1970,
{
    if year <= 1970 {
        0
    } else {
        days_before_year(year - 1) + year_days(year - 1)
    }
}

/// Days from January 1 to the first of `month` in `year`.
pub open spec fn days_before_month(year: int, month: int) -> nat
    decreases month,
{
    if month <= 1 {
        0
    } else {
        days_before_month(year, month - 1) + month_days(year, month - 1)
    }
}

/// Days of `year` from the first of `month` to the year's end.
pub open spec fn days_from_month(year: int, month: int) -> nat
    decreases 13 - month,
{
    if month > 12 {
        0
    } else {
        month_days(year, month) + days_from_month(year, month + 1)
    }
}

/// The day count of a date: days from 1970-01-01 to `(year, month, day)`.
pub open spec fn days_from_date(year: int, month: int, day: int) -> int {
    days_before_year(year) + days_before_month(year, month) + day - 1
}

/// The months of a year add up to the year.
pub proof fn lemma_months_fill_year(year: int)
    ensures
        days_from_month(year, 1) == year_days(year),
{
    assert(days_from_month(year, 13) == 0);
    assert(days_from_month(year, 12) == 31);
    assert(days_from_month(year, 11) == 61);
    assert(days_from_month(year, 10) == 92);
    assert(days_from_month(year, 9) == 122);
    assert(days_from_month(year, 8) == 153);
    assert(days_from_month(year, 7) == 184);
    assert(days_from_month(year, 6) == 214);
    assert(days_from_month(year, 5) == 245);
    assert(days_from_month(year, 4) == 275);
    assert(days_from_month(year, 3) == 306);
    assert(days_from_month(year, 2) == month_days(year, 2) + 306);
    assert(days_from_month(year, 1) == 31 + month_days(year, 2) + 306);
}

proof fn lemma_year_and_rest(days: nat, year: int)
    requires
        year >= 1970,
    ensures
        ({
            let (y, r) = year_and_rest(days, year);
            &&& y >= year
            &&& r < year_days(y)
            &&& days_before_year(y) + r == days_before_year(year) + days
        }),
    decreases days,
{
    if days >= year_days(year) {
        lemma_year_and_rest((days - year_days(year)) as nat, year + 1);
    }
}

proof fn lemma_month_and_rest(rest: nat, year: int, month: int)
    requires
        1 <= month <= 12,
        rest < days_from_month(year, month),
    ensures
        ({
            let (m, dr) = month_and_rest(rest, year, month);
            &&& month <= m <= 12
            &&& dr < month_days(year, m)
            &&& days_before_month(year, m) + dr == days_before_month(year, month) + rest
        }),
    decreases 13 - month,
{
    assert(days_from_month(year, month) == month_days(year, month) + days_from_month(year, month + 1));
    assert(days_from_month(year, 13) == 0);
    if rest >= month_days(year, month) {
        lemma_month_and_rest((rest - month_days(year, month)) as nat, year, month + 1);
    }
}

/// The date of any day count is a valid date from 1970 on, and converts
/// back to the same day count.
pub proof fn lemma_days_to_date_roundtrip(days: nat)
    ensures
        ({
            let (y, m, d) = spec_days_to_date(days);
            &&& y >= 1970
            &&& 1 <= m <= 12
            &&& 1 <= d <= month_days(y, m)
            &&& days_from_date(y, m, d) == days
        }),
{
    lemma_year_and_rest(days, 1970);
    let (y, r) = year_and_rest(days, 1970);
    lemma_months_fill_year(y);
    lemma_month_and_rest(r, y, 1);
}

proof fn lemma_days_before_year_mono(a: int, b: int)
    requires
        1970 <= a <= b,
    ensures
        days_before_year(a) <= days_before_year(b),
    decreases b - a,
{
    if a < b {
        lemma_days_before_year_mono(a, b - 1);
    }
}

proof fn lemma_year_and_rest_inverse(y: int, start: int, r: nat)
    requires
        1970 <= start <= y,
        r < year_days(y),
    ensures
        year_and_rest((days_before_year(y) - days_before_year(start) + r) as nat, start) == (y, r),
    decreases y - start,
{
    if start < y {
        lemma_days_before_year_mono(start + 1, y);
        assert(days_before_year(start + 1) == days_before_year(start) + year_days(start));
        lemma_year_and_rest_inverse(y, start + 1, r);
    }
}

proof fn lemma_months_split(year: int, m: int)
    requires
        1 <= m <= 13,
    ensures
        days_before_month(year, m) + days_from_month(year, m) == days_from_month(year, 1),
    decreases m,
{
    if m > 1 {
        lemma_months_split(year, m - 1);
        assert(days_from_month(year, m - 1) == month_days(year, m - 1) + days_from_month(year, m));
    }
}

proof fn lemma_days_before_month_mono(year: int, a: int, b: int)
    requires
        1 <= a <= b,
    ensures
        days_before_month(year, a) <= days_before_month(year, b),
    decreases b - a,
{
    if a < b {
        lemma_days_before_month_mono(year, a, b - 1);
    }
}

proof fn lemma_month_and_rest_inverse(year: int, m: int, start: int, dr: nat)
    requires
        1 <= start <= m <= 12,
        dr < month_days(year, m),
    ensures
        month_and_rest(
            (days_before_month(year, m) - days_before_month(year, start) + dr) as nat,
            year,
            start,
        ) == (m, dr),
    decreases m - start,
{
    if start < m {
        lemma_days_before_month_mono(year, start + 1, m);
        assert(days_before_month(year, start + 1) == days_before_month(year, start) + month_days(
            year,
            start,
        ));
        lemma_month_and_rest_inverse(year, m, start + 1, dr);
    }
}

/// Every date from 1970-01-01 on is reached by exactly one day count: the
/// date of a date's day count is that date.
pub proof fn lemma_date_to_days_roundtrip(year: int, month: int, day: int)
    requires
        year >= 1970,
        1 <= month <= 12,
        1 <= day <= month_days(year, month),
    ensures
        days_from_date(year, month, day) >= 0,
        spec_days_to_date(days_from_date(year, month, day) as nat) == (year, month, day),
{
    let dr = (day - 1) as nat;
    lemma_months_split(year, month);
    lemma_months_fill_year(year);
    assert(days_from_month(year, month) == month_days(year, month) + days_from_month(year, month + 1));
    let r = (days_before_month(year, month) + dr) as nat;
    assert(r < year_days(year));
    assert(days_before_year(1970) == 0);
    lemma_year_and_rest_inverse(year, 1970, r);
    assert(days_before_month(year, 1) == 0);
    lemma_month_and_rest_inverse(year, month, 1, dr);
}

} // verus!
