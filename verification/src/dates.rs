//! The date range of a flow query: yesterday through today in the local
//! timezone.  Only reading the clock's calendar fields is trusted; the
//! Gregorian step to yesterday and the `YYYY-MM-DD` rendering are verified.

use vstd::prelude::*;

use crate::numbers::{digit_str, spec_digit_char};

verus! {

#[verifier::external_type_specification]
#[verifier::external_body]
pub struct ExNaiveDateTime(chrono::NaiveDateTime);

/// Relies on chrono's `Local::now` and `DateTime::naive_local`: the current
/// moment of the local timezone, with the timezone marker shed.  Nothing is
/// assumed of the value.  On a system clock before the Unix epoch or at the
/// edge of the representable range chrono panics inside this call.
#[verifier::external_body]
fn now_local() -> chrono::NaiveDateTime {
    chrono::offset::Local::now().naive_local()
}

/// Relies on chrono's `Datelike::year`: the calendar year of the moment.
/// Nothing is assumed of the value.
#[verifier::external_body]
fn year_of(t: &chrono::NaiveDateTime) -> i32 {
    chrono::Datelike::year(t)
}

/// Relies on chrono's `Datelike::month`: the month of the moment, which
/// the documentation promises ranges from 1 to 12.
#[verifier::external_body]
fn month_of(t: &chrono::NaiveDateTime) -> (m: u32)
    ensures
        1 <= m <= 12,
{
    chrono::Datelike::month(t)
}

/// Relies on chrono's `Datelike::day`: the day of month of the moment,
/// which the documentation promises ranges from 1 to 31.
#[verifier::external_body]
fn day_of(t: &chrono::NaiveDateTime) -> (d: u32)
    ensures
        1 <= d <= 31,
{
    chrono::Datelike::day(t)
}

/// A Gregorian leap year.
pub open spec fn is_leap(y: int) -> bool {
    (y % 4 == 0 && y % 100 != 0) || y % 400 == 0
}

/// The length of a month in the Gregorian calendar.
pub open spec fn days_in_month(y: int, m: int) -> int {
    if m == 1 { 31 } else if m == 2 { if is_leap(y) { 29 } else { 28 } }
    else if m == 3 { 31 } else if m == 4 { 30 } else if m == 5 { 31 }
    else if m == 6 { 30 } else if m == 7 { 31 } else if m == 8 { 31 }
    else if m == 9 { 30 } else if m == 10 { 31 } else if m == 11 { 30 }
    else { 31 }
}

/// A calendar date this module can render: a four-digit year and a day
/// that exists in its month.
pub open spec fn valid_date(y: int, m: int, d: int) -> bool {
    0 <= y <= 9999 && 1 <= m <= 12 && 1 <= d <= days_in_month(y, m)
}

/// The date one day earlier.
pub open spec fn spec_prev_day(y: int, m: int, d: int) -> (int, int, int) {
    if d > 1 {
        (y, m, d - 1)
    } else if m > 1 {
        (y, m - 1, days_in_month(y, m - 1))
    } else {
        (y - 1, 12, 31)
    }
}

/// A number as exactly two decimal digits, zero-padded.
pub open spec fn spec_pad2(n: int) -> Seq<char> {
    seq![spec_digit_char(n / 10 % 10), spec_digit_char(n % 10)]
}

/// A number as exactly four decimal digits, zero-padded.
pub open spec fn spec_pad4(n: int) -> Seq<char> {
    seq![
        spec_digit_char(n / 1000 % 10),
        spec_digit_char(n / 100 % 10),
        spec_digit_char(n / 10 % 10),
        spec_digit_char(n % 10),
    ]
}

/// A date as `YYYY-MM-DD`: ten characters, zero-padded.
pub open spec fn spec_date_text(y: int, m: int, d: int) -> Seq<char> {
    spec_pad4(y) + seq!['-'] + spec_pad2(m) + seq!['-'] + spec_pad2(d)
}

fn days_in_month_x(y: u32, m: u32) -> (n: u32)
    requires
        1 <= m <= 12,
    ensures
        n as int == days_in_month(y as int, m as int),
        28 <= n <= 31,
{
    if m == 1 { 31 } else if m == 2 {
        if (y % 4 == 0 && y % 100 != 0) || y % 400 == 0 { 29 } else { 28 }
    }
    else if m == 3 { 31 } else if m == 4 { 30 } else if m == 5 { 31 }
    else if m == 6 { 30 } else if m == 7 { 31 } else if m == 8 { 31 }
    else if m == 9 { 30 } else if m == 10 { 31 } else if m == 11 { 30 }
    else { 31 }
}

/// Steps one day back in the Gregorian calendar.
pub fn previous_day(y: u32, m: u32, d: u32) -> (r: (u32, u32, u32))
    requires
        valid_date(y as int, m as int, d as int),
        y >= 1,
    ensures
        (r.0 as int, r.1 as int, r.2 as int) == spec_prev_day(y as int, m as int, d as int),
        valid_date(r.0 as int, r.1 as int, r.2 as int),
{
    if d > 1 {
        (y, m, d - 1)
    } else if m > 1 {
        (y, m - 1, days_in_month_x(y, m - 1))
    } else {
        (y - 1, 12, 31)
    }
}

fn pad2(n: u32) -> (s: String)
    requires
        n <= 99,
    ensures
        s@ == spec_pad2(n as int),
{
    let mut s = String::from_str(digit_str((n / 10 % 10) as u64));
    s.append(digit_str((n % 10) as u64));
    proof {
        assert(s@ =~= spec_pad2(n as int));
    }
    s
}

fn pad4(n: u32) -> (s: String)
    requires
        n <= 9999,
    ensures
        s@ == spec_pad4(n as int),
{
    let mut s = String::from_str(digit_str((n / 1000 % 10) as u64));
    s.append(digit_str((n / 100 % 10) as u64));
    s.append(digit_str((n / 10 % 10) as u64));
    s.append(digit_str((n % 10) as u64));
    proof {
        assert(s@ =~= spec_pad4(n as int));
    }
    s
}

/// Renders a date as `YYYY-MM-DD`.
pub fn date_text(y: u32, m: u32, d: u32) -> (s: String)
    requires
        y <= 9999,
        m <= 99,
        d <= 99,
    ensures
        s@ == spec_date_text(y as int, m as int, d as int),
        s@.len() == 10,
{
    let mut s = pad4(y);
    s.append("-");
    s.append(pad2(m).as_str());
    s.append("-");
    s.append(pad2(d).as_str());
    proof {
        reveal_strlit("-");
        assert("-"@ =~= seq!['-']);
        assert(s@ =~= spec_date_text(y as int, m as int, d as int));
    }
    s
}

/// The date range a flow query uses: yesterday's and today's dates in the
/// local timezone, each as `YYYY-MM-DD` text.  On `Some`, the second
/// string renders the clock's date and the first renders the day exactly
/// one before it; `None` only when the clock reports a date outside the
/// model (year 0 or past 9999, or a day its month does not have), which a
/// working clock never does.
pub fn current_date_range() -> (r: Option<(String, String)>)
    ensures
        r matches Some(range) ==> exists|y: int, m: int, d: int|
            {
                &&& valid_date(y, m, d)
                &&& y >= 1
                &&& range.1@ == #[trigger] spec_date_text(y, m, d)
                &&& range.0@ == spec_date_text(
                    spec_prev_day(y, m, d).0,
                    spec_prev_day(y, m, d).1,
                    spec_prev_day(y, m, d).2,
                )
                &&& range.0@.len() == 10 && range.1@.len() == 10
            },
{
    let t = now_local();
    let yi = year_of(&t);
    let m = month_of(&t);
    let d = day_of(&t);
    if yi < 1 || yi > 9999 {
        return None;
    }
    let y = yi as u32;
    if d > days_in_month_x(y, m) {
        return None;
    }
    let (py, pm, pd) = previous_day(y, m, d);
    let start = date_text(py, pm, pd);
    let end = date_text(y, m, d);
    proof {
        assert(valid_date(y as int, m as int, d as int));
        assert(end@ == spec_date_text(y as int, m as int, d as int));
    }
    Some((start, end))
}

} // verus!
