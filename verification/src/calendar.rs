//! Gregorian calendar arithmetic: month lengths, weekdays, working days.
use vstd::prelude::*;

verus! {

/// Integer division rounding toward zero (Rust's `/` on signed integers).
pub open spec fn tdiv(a: int, b: int) -> int {
    if a >= 0 {
        a / b
    } else {
        -((-a) / b)
    }
}

/// Remainder of `tdiv` (Rust's `%` on signed integers).
pub open spec fn trem(a: int, b: int) -> int {
    a - b * tdiv(a, b)
}

pub open spec fn is_leap_year(y: int) -> bool {
    (y % 4 == 0 && y % 100 != 0) || y % 400 == 0
}

pub open spec fn month_length(y: int, m: int) -> int {
    if m == 1 || m == 3 || m == 5 || m == 7 || m == 8 || m == 10 || m == 12 {
        31
    } else if m == 4 || m == 6 || m == 9 || m == 11 {
        30
    } else if m == 2 {
        if is_leap_year(y) {
            29
        } else {
            28
        }
    } else {
        30
    }
}

/// Returns the number of days in the given month of the given year, taking
/// leap years into account (30 for a number that names no month).
pub fn days_in_month(year: i32, month: i32) -> (r: i32)
    ensures
        r == month_length(year as int, month as int),
        28 <= r <= 31,
        month == 2 ==> (r == 29 <==> is_leap_year(year as int)),
{
    match month {
        1 | 3 | 5 | 7 | 8 | 10 | 12 => 31,
        4 | 6 | 9 | 11 => 30,
        2 => {
            if (year % 4 == 0 && year % 100 != 0) || year % 400 == 0 {
                29
            } else {
                28
            }
        },
        _ => 30,
    }
}

/// Sakamoto's month offsets.
pub open spec fn month_offset(m: int) -> int {
    if m == 1 {
        0
    } else if m == 2 {
        3
    } else if m == 3 {
        2
    } else if m == 4 {
        5
    } else if m == 5 {
        0
    } else if m == 6 {
        3
    } else if m == 7 {
        5
    } else if m == 8 {
        1
    } else if m == 9 {
        4
    } else if m == 10 {
        6
    } else if m == 11 {
        2
    } else {
        4
    }
}

/// The year Sakamoto's formula counts from: January and February belong to
/// the year before.
pub open spec fn shifted_year(y: int, m: int) -> int {
    if m < 3 {
        y - 1
    } else {
        y
    }
}

/// The running sums Sakamoto's formula builds, left to right.
pub open spec fn dow_partial_sums(y: int, m: int, d: int) -> Seq<int> {
    let yy = shifted_year(y, m);
    let s1 = yy + tdiv(yy, 4);
    let s2 = s1 - tdiv(yy, 100);
    let s3 = s2 + tdiv(yy, 400);
    let s4 = s3 + month_offset(m);
    let s5 = s4 + d;
    seq![yy, s1, s2, s3, s4, s5]
}

pub open spec fn dow_sum(y: int, m: int, d: int) -> int {
    dow_partial_sums(y, m, d)[5]
}

/// Sakamoto's weekday: 0 for Sunday, 1 for Monday, ..., 6 for Saturday.
pub open spec fn weekday(y: int, m: int, d: int) -> int {
    trem(dow_sum(y, m, d), 7)
}

/// The formula's intermediate values all fit in an `i32`.
pub open spec fn dow_fits(y: int, m: int, d: int) -> bool {
    forall|i: int| 0 <= i < 6 ==> i32::MIN <= #[trigger] dow_partial_sums(y, m, d)[i] <= i32::MAX
}

/// Sakamoto's algorithm: returns 0 for Sunday, 1 for Monday, ..., 6 for Saturday.
pub fn day_of_week(y: i32, m: i32, d: i32) -> (r: i32)
    requires
        1 <= m <= 12,
        dow_fits(y as int, m as int, d as int),
    ensures
        r == weekday(y as int, m as int, d as int),
{
    let t: [i32; 12] = [0, 3, 2, 5, 0, 3, 5, 1, 4, 6, 2, 4];
    let ghost ps = dow_partial_sums(y as int, m as int, d as int);
    assert(i32::MIN <= ps[0] <= i32::MAX);
    assert(i32::MIN <= ps[1] <= i32::MAX);
    assert(i32::MIN <= ps[2] <= i32::MAX);
    assert(i32::MIN <= ps[3] <= i32::MAX);
    assert(i32::MIN <= ps[4] <= i32::MAX);
    assert(i32::MIN <= ps[5] <= i32::MAX);
    let mut y = y;
    if m < 3 {
        y -= 1;
    }
    let off = t[(m - 1) as usize];
    assert(off == month_offset(m as int));
    (y + y / 4 - y / 100 + y / 400 + off + d) % 7
}

pub open spec fn is_weekday_spec(y: int, m: int, d: int) -> bool {
    weekday(y, m, d) != 0 && weekday(y, m, d) != 6
}

/// Returns true if the day is a weekday (Monday through Friday).
pub fn is_weekday(y: i32, m: i32, d: i32) -> (r: bool)
    requires
        1 <= m <= 12,
        dow_fits(y as int, m as int, d as int),
    ensures
        r == is_weekday_spec(y as int, m as int, d as int),
{
    let dow = day_of_week(y, m, d);
    dow != 0 && dow != 6
}

/// Number of weekdays among the days `1..=n` of the month.
pub open spec fn weekdays_upto(y: int, m: int, n: int) -> int
    decreases n,
{
    if n <= 0 {
        0
    } else {
        weekdays_upto(y, m, n - 1) + if is_weekday_spec(y, m, n) {
            1int
        } else {
            0int
        }
    }
}

/// Every day of the month can be fed to the weekday formula.
pub open spec fn month_fits(y: int, m: int) -> bool {
    forall|d: int| 1 <= d <= month_length(y, m) ==> #[trigger] dow_fits(y, m, d)
}

/// Whether `m` names a month whose days can all be fed to the weekday
/// formula (`working_days_in_month` asks for it).
pub fn month_in_range(y: i32, m: i32) -> (b: bool)
    ensures
        b == (1 <= m <= 12 && month_fits(y as int, m as int)),
{
    if m < 1 || m > 12 {
        return false;
    }
    let t: [i64; 12] = [0, 3, 2, 5, 0, 3, 5, 1, 4, 6, 2, 4];
    let yy: i64 = if m < 3 {
        y as i64 - 1
    } else {
        y as i64
    };
    let s1 = yy + yy / 4;
    let s2 = s1 - yy / 100;
    let s3 = s2 + yy / 400;
    let off = t[(m - 1) as usize];
    assert(off == month_offset(m as int));
    let s4 = s3 + off;
    let len = days_in_month(y, m) as i64;
    let lo = i32::MIN as i64;
    let hi = i32::MAX as i64;
    let ok = lo <= yy && yy <= hi && lo <= s1 && s1 <= hi && lo <= s2 && s2 <= hi && lo <= s3
        && s3 <= hi && lo <= s4 && s4 <= hi && s4 + len <= hi;
    proof {
        let ghost ps1 = dow_partial_sums(y as int, m as int, 1);
        assert(ps1[0] == yy && ps1[1] == s1 && ps1[2] == s2 && ps1[3] == s3 && ps1[4] == s4);
        if ok {
            assert forall|d: int| 1 <= d <= month_length(y as int, m as int) implies #[trigger] dow_fits(
                y as int,
                m as int,
                d,
            ) by {
                let ps = dow_partial_sums(y as int, m as int, d);
                assert(ps[0] == yy && ps[1] == s1 && ps[2] == s2 && ps[3] == s3 && ps[4] == s4 && ps[5]
                    == s4 + d);
                assert forall|i: int| 0 <= i < 6 implies i32::MIN <= #[trigger] ps[i] <= i32::MAX by {
                    if i == 5 {
                    }
                }
            }
        } else if lo <= yy && yy <= hi && lo <= s1 && s1 <= hi && lo <= s2 && s2 <= hi && lo <= s3
            && s3 <= hi && lo <= s4 && s4 <= hi {
            let dl = month_length(y as int, m as int);
            let ps = dow_partial_sums(y as int, m as int, dl);
            assert(ps[5] == s4 + len);
            assert(!dow_fits(y as int, m as int, dl));
        } else {
            assert(!(i32::MIN <= ps1[0] <= i32::MAX) || !(i32::MIN <= ps1[1] <= i32::MAX) || !(
            i32::MIN <= ps1[2] <= i32::MAX) || !(i32::MIN <= ps1[3] <= i32::MAX) || !(i32::MIN
                <= ps1[4] <= i32::MAX));
            assert(!dow_fits(y as int, m as int, 1));
        }
    }
    ok
}

/// Returns the number of working days (weekdays) in the given month of the
/// given year.
pub fn working_days_in_month(year: i32, month: i32) -> (r: i32)
    requires
        1 <= month <= 12,
        month_fits(year as int, month as int),
    ensures
        r == weekdays_upto(year as int, month as int, month_length(year as int, month as int)),
        0 <= r <= month_length(year as int, month as int),
{
    let mut working_days: i32 = 0;
    let days = days_in_month(year, month);
    let mut d: i32 = 1;
    while d <= days
        invariant
            1 <= d <= days + 1,
            days == month_length(year as int, month as int),
            28 <= days <= 31,
            1 <= month <= 12,
            month_fits(year as int, month as int),
            working_days == weekdays_upto(year as int, month as int, (d - 1) as int),
            0 <= working_days <= d - 1,
        decreases days + 1 - d,
    {
        assert(dow_fits(year as int, month as int, d as int));
        if is_weekday(year, month, d) {
            working_days += 1;
        }
        d += 1;
    }
    working_days
}

} // verus!

verus! {

/// The day after (`y`, `m`, `d`).
pub open spec fn next_day(y: int, m: int, d: int) -> (int, int, int) {
    if d < month_length(y, m) {
        (y, m, d + 1)
    } else if m < 12 {
        (y, m + 1, 1)
    } else {
        (y + 1, 1, 1)
    }
}

proof fn lemma_div_step(y: int, k: int)
    requires
        y >= 1,
        k > 0,
    ensures
        y / k - (y - 1) / k == if y % k == 0 {
            1int
        } else {
            0int
        },
{
    assert(y / k - (y - 1) / k == if y % k == 0 {
        1int
    } else {
        0int
    }) by (nonlinear_arith)
        requires
            y >= 1,
            k > 0,
    ;
}

/// Sakamoto's weekday moves on by one, modulo 7, from each day of the
/// Gregorian calendar (year 1 on) to the next, across month and year ends.
#[verifier::spinoff_prover]
#[verifier::rlimit(40)]
pub proof fn law_weekday_advances(y: int, m: int, d: int)
    requires
        y >= 1,
        1 <= m <= 12,
        1 <= d <= month_length(y, m),
    ensures
        0 <= weekday(y, m, d) < 7,
        ({
            let n = next_day(y, m, d);
            weekday(n.0, n.1, n.2) == (weekday(y, m, d) + 1) % 7
        }),
{
    let n = next_day(y, m, d);
    let s = dow_sum(y, m, d);
    let t = dow_sum(n.0, n.1, n.2);
    assert(s >= 0);
    assert(t >= 0);
    assert(weekday(y, m, d) == s % 7);
    assert(weekday(n.0, n.1, n.2) == t % 7);
    if d < month_length(y, m) {
        assert(t == s + 1);
    } else if m == 2 {
        lemma_div_step(y, 4);
        lemma_div_step(y, 100);
        lemma_div_step(y, 400);
        assert(t - s == -27);
    } else if m < 12 {
        assert(t - s == -27 || t - s == -34 || t - s == -20 || t - s == -13 || t - s == -6);
    } else {
        assert(t - s == -34);
    }
}

} // verus!
