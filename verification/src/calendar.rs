//! The proleptic Gregorian calendar, counted in days from 1970-01-01.
use vstd::prelude::*;

verus! {

/// Seconds in one day.
pub const SECS_PER_DAY: u64 = 86400;

/// Days in one 400-year cycle of the Gregorian calendar.
pub const DAYS_PER_ERA: u64 = 146097;

/// A Gregorian leap year.
pub open spec fn is_leap(y: int) -> bool {
    (y % 4 == 0 && y % 100 != 0) || y % 400 == 0
}

/// Number of days in year `y`.
pub open spec fn year_len(y: int) -> int {
    if is_leap(y) {
        366
    } else {
        365
    }
}

/// Number of days in month `m` (1 to 12) of year `y`.
pub open spec fn month_len(y: int, m: int) -> int {
    if m == 2 {
        if is_leap(y) {
            29
        } else {
            28
        }
    } else if m == 4 || m == 6 || m == 9 || m == 11 {
        30
    } else {
        31
    }
}

/// Number of leap years among the years 1 to `y - 1`, for `y >= 1`.
pub open spec fn leaps_before(y: int) -> int {
    (y - 1) / 4 - (y - 1) / 100 + (y - 1) / 400
}

/// Days from 1970-01-01 to January 1st of year `y`.
pub open spec fn days_before_year(y: int) -> int {
    365 * (y - 1970) + leaps_before(y) - leaps_before(1970)
}

/// Days from January 1st to the first day of month `m` in year `y`.
pub open spec fn days_before_month(y: int, m: int) -> int
    decreases m,
{
    if m <= 1 {
        0
    } else {
        days_before_month(y, m - 1) + month_len(y, m - 1)
    }
}

/// A day of the calendar: month 1 to 12, day within the month.
pub open spec fn valid_date(y: int, m: int, d: int) -> bool {
    1 <= m <= 12 && 1 <= d <= month_len(y, m)
}

/// Days from 1970-01-01 to the given date.
pub open spec fn days_from_civil(y: int, m: int, d: int) -> int {
    days_before_year(y) + days_before_month(y, m) + d - 1
}

/// Consecutive years: January 1st of `y + 1` comes `year_len(y)` days after
/// that of `y`.
pub proof fn lemma_next_year(y: int)
    requires
        y >= 1,
    ensures
        days_before_year(y + 1) == days_before_year(y) + year_len(y),
{
    assert(y / 4 - (y - 1) / 4 == (if y % 4 == 0 { 1int } else { 0 }));
    assert(y / 100 - (y - 1) / 100 == (if y % 100 == 0 { 1int } else { 0 }));
    assert(y / 400 - (y - 1) / 400 == (if y % 400 == 0 { 1int } else { 0 }));
}

/// Four hundred years hold exactly `DAYS_PER_ERA` days.
pub proof fn lemma_era_len(y: int)
    requires
        y >= 1,
    ensures
        days_before_year(y + 400) == days_before_year(y) + 146097,
{
    assert((y + 399) / 4 == (y - 1) / 4 + 100);
    assert((y + 399) / 100 == (y - 1) / 100 + 4);
    assert((y + 399) / 400 == (y - 1) / 400 + 1);
}

/// `k` whole eras after 1970 start `k * DAYS_PER_ERA` days after 1970.
pub proof fn lemma_eras(k: nat)
    ensures
        days_before_year(1970 + 400 * (k as int)) == 146097 * k,
    decreases k,
{
    if k > 0 {
        lemma_eras((k - 1) as nat);
        lemma_era_len(1970 + 400 * (k - 1) as int);
    }
}

/// January 1st moves strictly forward with the year.
pub proof fn lemma_years_increase(a: int, b: int)
    requires
        1 <= a < b,
    ensures
        days_before_year(a) + year_len(a) <= days_before_year(b),
    decreases b - a,
{
    lemma_next_year(a);
    if a + 1 < b {
        lemma_years_increase(a + 1, b);
        lemma_next_year(a + 1);
    }
}

/// The twelve months fill the year.
pub proof fn lemma_months_fill_year(y: int)
    ensures
        days_before_month(y, 13) == year_len(y),
        forall|m: int| 1 <= m <= 12 ==> #[trigger] days_before_month(y, m + 1) <= year_len(y),
{
    reveal_with_fuel(days_before_month, 13);
}

/// Later months start later in the year.
pub proof fn lemma_months_increase(y: int, a: int, b: int)
    requires
        1 <= a <= b,
    ensures
        0 <= days_before_month(y, a) <= days_before_month(y, b),
    decreases b - a,
{
    if a < b {
        lemma_months_increase(y, a, b - 1);
    } else {
        lemma_month_start_nonneg(y, a);
    }
}

/// No month starts before January 1st.
pub proof fn lemma_month_start_nonneg(y: int, m: int)
    ensures
        days_before_month(y, m) >= 0,
    decreases m,
{
    if m > 1 {
        lemma_month_start_nonneg(y, m - 1);
    }
}

/// A valid date falls inside its year.
pub proof fn lemma_day_in_year(y: int, m: int, d: int)
    requires
        valid_date(y, m, d),
    ensures
        0 <= days_before_month(y, m) + d - 1 < year_len(y),
{
    lemma_months_fill_year(y);
    lemma_months_increase(y, 1, m);
    assert(days_before_month(y, m + 1) == days_before_month(y, m) + month_len(y, m));
    assert(days_before_month(y, m + 1) <= year_len(y));
}

/// Each day number after 1970-01-01 names exactly one date: two valid
/// dates with the same day number are the same date.
pub proof fn lemma_civil_unique(y1: int, m1: int, d1: int, y2: int, m2: int, d2: int)
    requires
        y1 >= 1970,
        y2 >= 1970,
        valid_date(y1, m1, d1),
        valid_date(y2, m2, d2),
        days_from_civil(y1, m1, d1) == days_from_civil(y2, m2, d2),
    ensures
        y1 == y2 && m1 == m2 && d1 == d2,
{
    lemma_day_in_year(y1, m1, d1);
    lemma_day_in_year(y2, m2, d2);
    if y1 < y2 {
        lemma_years_increase(y1, y2);
    } else if y2 < y1 {
        lemma_years_increase(y2, y1);
    } else {
        if m1 < m2 {
            lemma_months_increase(y1, m1 + 1, m2);
        } else if m2 < m1 {
            lemma_months_increase(y1, m2 + 1, m1);
        }
    }
}

/// The date `days` days after 1970-01-01.
pub open spec fn civil_date(days: nat) -> (int, int, int) {
    choose|y: int, m: int, d: int|
        y >= 1970 && valid_date(y, m, d) && days_from_civil(y, m, d) == days
}

/// What `civil_from_days` computes is the date `civil_date` names.
pub proof fn lemma_civil_date_is(days: nat, y: int, m: int, d: int)
    requires
        y >= 1970,
        valid_date(y, m, d),
        days_from_civil(y, m, d) == days,
    ensures
        civil_date(days) == (y, m, d),
{
    let (y2, m2, d2) = civil_date(days);
    lemma_civil_unique(y, m, d, y2, m2, d2);
}

/// The year, month and day of the date `days` days after 1970-01-01.
pub fn civil_from_days(days: u64) -> (r: (u64, u64, u64))
    ensures
        r.0 >= 1970,
        valid_date(r.0 as int, r.1 as int, r.2 as int),
        days_from_civil(r.0 as int, r.1 as int, r.2 as int) == days,
        civil_date(days as nat) == (r.0 as int, r.1 as int, r.2 as int),
{
    let era: u64 = days / DAYS_PER_ERA;
    let mut rem: u64 = days % DAYS_PER_ERA;
    assert(era <= 0xFFFF_FFFF_FFFF);
    let start: u64 = 1970 + 400 * era;
    let mut y: u64 = start;
    proof {
        lemma_eras(era as nat);
        lemma_era_len(start as int);
    }
    while rem >= year_length(y)
        invariant
            start == 1970 + 400 * era,
            era <= 0xFFFF_FFFF_FFFF,
            start <= y <= start + 400,
            days_before_year(y as int) + rem == days,
            days_before_year(y as int) + rem < days_before_year(start + 400),
        decreases rem,
    {
        proof {
            lemma_next_year(y as int);
            if y + 1 >= start + 400 {
                if y + 1 < start + 400 {
                } else if y + 1 == start + 400 {
                } else {
                    lemma_years_increase(start + 400, y as int);
                }
            }
        }
        rem = rem - year_length(y);
        y = y + 1;
    }
    let mut m: u64 = 1;
    let ghost rem0 = rem;
    proof {
        lemma_months_fill_year(y as int);
    }
    while rem >= month_length(y, m)
        invariant
            1 <= m <= 12,
            days_before_month(y as int, m as int) + rem == rem0,
            rem0 < year_len(y as int),
            days_before_month(y as int, 13) == year_len(y as int),
            forall|k: int| 1 <= k <= 12 ==> #[trigger] days_before_month(y as int, k + 1) <= year_len(
                y as int,
            ),
        decreases rem,
    {
        assert(days_before_month(y as int, m + 1) == days_before_month(y as int, m as int)
            + month_len(y as int, m as int));
        if m == 12 {
            assert(false);
        }
        rem = rem - month_length(y, m);
        m = m + 1;
    }
    proof {
        lemma_civil_date_is(days as nat, y as int, m as int, rem + 1);
    }
    (y, m, rem + 1)
}

/// Exec counterpart of `year_len`.
pub fn year_length(y: u64) -> (n: u64)
    ensures
        n == year_len(y as int),
{
    if (y % 4 == 0 && y % 100 != 0) || y % 400 == 0 {
        366
    } else {
        365
    }
}

/// Exec counterpart of `month_len`.
pub fn month_length(y: u64, m: u64) -> (n: u64)
    ensures
        n == month_len(y as int, m as int),
{
    if m == 2 {
        if (y % 4 == 0 && y % 100 != 0) || y % 400 == 0 {
            29
        } else {
            28
        }
    } else if m == 4 || m == 6 || m == 9 || m == 11 {
        30
    } else {
        31
    }
}

} // verus!
