//! The parts of talking to the Todoist API v1 that decide rather than transfer: error texts
//! for HTTP statuses, which statuses count as success, cursor pagination, and the date
//! window of the completed-tasks query.
use crate::models::{ov, Page};
use crate::text::{dec, dec_padded, push_decimal, push_decimal_padded};
use vstd::prelude::*;
use vstd::string::*;

verus! {

/// The base of every endpoint.
pub const BASE: &'static str = "https://api.todoist.com/api/v1";

/// The error text for a non-2xx status from `path`.
pub open spec fn http_err_spec(status: u16, path: Seq<char>) -> Seq<char> {
    if status == 401 {
        "Todoist API: 401 Unauthorized — check TODOIST_API_TOKEN"@
    } else if status == 403 {
        "Todoist API: 403 Forbidden — "@ + path
    } else if status == 404 {
        "Todoist API: 404 Not Found — "@ + path
    } else if status == 429 {
        "Todoist API: 429 Too Many Requests — wait a moment"@
    } else if status >= 500 {
        "Todoist API: server error "@ + dec(status as nat) + " — "@ + path
    } else {
        "Todoist API: error "@ + dec(status as nat) + " — "@ + path
    }
}

/// The error text for a non-2xx status from `path`.
pub fn http_err(status: u16, path: &str) -> (r: String)
    ensures
        r@ == http_err_spec(status, path@),
{
    if status == 401 {
        String::from_str("Todoist API: 401 Unauthorized — check TODOIST_API_TOKEN")
    } else if status == 403 {
        String::from_str("Todoist API: 403 Forbidden — ").concat(path)
    } else if status == 404 {
        String::from_str("Todoist API: 404 Not Found — ").concat(path)
    } else if status == 429 {
        String::from_str("Todoist API: 429 Too Many Requests — wait a moment")
    } else if status >= 500 {
        let mut m = String::from_str("Todoist API: server error ");
        push_decimal(&mut m, status as u64);
        m.append(" — ");
        m.append(path);
        assert(m@ =~= http_err_spec(status, path@));
        m
    } else {
        let mut m = String::from_str("Todoist API: error ");
        push_decimal(&mut m, status as u64);
        m.append(" — ");
        m.append(path);
        assert(m@ =~= http_err_spec(status, path@));
        m
    }
}

/// A 2xx status is success; any other is the error of `http_err`.
pub fn status_result(status: u16, path: &str) -> (r: Result<(), String>)
    ensures
        match r {
            Ok(()) => 200 <= status < 300,
            Err(e) => !(200 <= status < 300) && e@ == http_err_spec(status, path@),
        },
{
    if status < 200 || status >= 300 {
        Err(http_err(status, path))
    } else {
        Ok(())
    }
}

/// For a delete, a 404 also counts as success: the task is gone either way.
pub fn delete_status_result(status: u16, path: &str) -> (r: Result<(), String>)
    ensures
        match r {
            Ok(()) => 200 <= status < 300 || status == 404,
            Err(e) => !(200 <= status < 300 || status == 404) && e@ == http_err_spec(status, path@),
        },
{
    if status < 200 || status >= 300 {
        if status == 404 {
            return Ok(());
        }
        return Err(http_err(status, path));
    }
    Ok(())
}

/// Adds a page's results to what was gathered and returns the cursor of the next page
/// (`None`: that was the last page).
pub fn absorb_page<T>(items: &mut Vec<T>, page: Page<T>) -> (next: Option<String>)
    ensures
        final(items)@ == old(items)@ + page.results@,
        ov(next) == ov(page.next_cursor),
{
    let mut results = page.results;
    items.append(&mut results);
    page.next_cursor
}

pub open spec fn is_leap_year(y: int) -> bool {
    (y % 4 == 0 && y % 100 != 0) || y % 400 == 0
}

pub fn is_leap(y: u64) -> (r: bool)
    ensures
        r == is_leap_year(y as int),
{
    (y % 4 == 0 && y % 100 != 0) || y % 400 == 0
}

pub open spec fn year_len(y: int) -> int {
    if is_leap_year(y) {
        366
    } else {
        365
    }
}

/// Days from 1970-01-01 to the first day of year `y`.
pub open spec fn days_before_year(y: int) -> int
    decreases y - 1970,
{
    if y <= 1970 {
        0
    } else {
        days_before_year(y - 1) + year_len(y - 1)
    }
}

pub open spec fn month_len(y: int, m: int) -> int {
    if m == 2 {
        if is_leap_year(y) {
            29
        } else {
            28
        }
    } else if m == 4 || m == 6 || m == 9 || m == 11 {
        30
    } else {
        31
    }
}

/// Days from the first of the year to the first of month `m`.
pub open spec fn days_before_month(y: int, m: int) -> int
    decreases m,
{
    if m <= 1 {
        0
    } else {
        days_before_month(y, m - 1) + month_len(y, m - 1)
    }
}

/// Day `day` of month `month` of year `year` is `days` days after 1970-01-01.
pub open spec fn civil_date(days: int, year: int, month: int, day: int) -> bool {
    &&& 1970 <= year
    &&& 1 <= month <= 12
    &&& 1 <= day <= month_len(year, month)
    &&& days_before_year(year) + days_before_month(year, month) + day - 1 == days
}

/// `YYYY-MM-DD`, zero-padded (`{:04}-{:02}-{:02}`).
pub open spec fn date_text(year: int, month: int, day: int) -> Seq<char> {
    dec_padded(year as nat, 4) + seq!['-'] + dec_padded(month as nat, 2) + seq!['-'] + dec_padded(
        day as nat,
        2,
    )
}

proof fn lemma_days_before_month_values(y: int)
    ensures
        days_before_month(y, 12) + 31 == year_len(y),
        forall|m: int| 1 <= m <= 12 ==> #[trigger] days_before_month(y, m + 1) == days_before_month(y, m) + month_len(y, m),
{
    reveal_with_fuel(days_before_month, 13);
}

proof fn lemma_days_before_month_mono(y: int, a: int, b: int)
    requires
        1 <= a <= b,
    ensures
        days_before_month(y, a) <= days_before_month(y, b),
    decreases b - a,
{
    if a < b {
        lemma_days_before_month_mono(y, a, b - 1);
    }
}

proof fn lemma_days_before_year_mono(a: int, b: int)
    requires
        1970 <= a <= b,
    ensures
        days_before_year(a) <= days_before_year(b),
    decreases b - a,
{
    if a < b {
        lemma_days_before_year_mono(a, b - 1);
    }
}

/// A date lies within its year: before the first day of the next.
proof fn lemma_civil_bounds(days: int, y: int, m: int, d: int)
    requires
        civil_date(days, y, m, d),
    ensures
        days_before_year(y) <= days < days_before_year(y + 1),
        days_before_month(y, m) <= days - days_before_year(y) < days_before_month(y, m + 1),
{
    lemma_days_before_month_values(y);
    lemma_days_before_month_mono(y, m + 1, 13);
    lemma_days_before_month_mono(y, 1, m);
    assert(days_before_year(y + 1) == days_before_year(y) + year_len(y));
    assert(days_before_month(y, m + 1) == days_before_month(y, m) + month_len(y, m));
    assert(days_before_month(y, 13) == year_len(y));
    assert(days_before_month(y, 13) == days_before_month(y, 12) + 31);
}

/// Each day count after the epoch names one calendar date.
pub proof fn lemma_civil_date_unique(days: int, y1: int, m1: int, d1: int, y2: int, m2: int, d2: int)
    requires
        civil_date(days, y1, m1, d1),
        civil_date(days, y2, m2, d2),
    ensures
        y1 == y2 && m1 == m2 && d1 == d2,
{
    lemma_civil_bounds(days, y1, m1, d1);
    lemma_civil_bounds(days, y2, m2, d2);
    if y1 < y2 {
        lemma_days_before_year_mono(y1 + 1, y2);
    } else if y2 < y1 {
        lemma_days_before_year_mono(y2 + 1, y1);
    }
    assert(y1 == y2);
    if m1 < m2 {
        lemma_days_before_month_mono(y1, m1 + 1, m2);
    } else if m2 < m1 {
        lemma_days_before_month_mono(y1, m2 + 1, m1);
    }
}

/// The calendar date `days` days after 1970-01-01.
pub open spec fn calendar_date(days: int) -> (int, int, int) {
    choose|y: int, m: int, d: int| civil_date(days, y, m, d)
}

fn year_length(y: u64) -> (r: u64)
    ensures
        r == year_len(y as int),
{
    if is_leap(y) {
        366
    } else {
        365
    }
}

fn month_length(y: u64, m: u64) -> (r: u64)
    ensures
        r == month_len(y as int, m as int),
{
    if m == 2 {
        if is_leap(y) {
            29
        } else {
            28
        }
    } else if m == 4 || m == 6 || m == 9 || m == 11 {
        30
    } else {
        31
    }
}

/// The UTC calendar date of a Unix time, as `YYYY-MM-DD`.
pub fn format_date(unix_secs: u64) -> (r: String)
    ensures
        ({
            let (y, m, d) = calendar_date((unix_secs / 86400) as int);
            &&& civil_date((unix_secs / 86400) as int, y, m, d)
            &&& r@ == date_text(y, m, d)
        }),
{
    let days = unix_secs / 86400;
    let mut y: u64 = 1970;
    let mut d: u64 = days;
    while d >= year_length(y)
        invariant
            1970 <= y,
            d <= days,
            (y - 1970) * 365 <= days - d,
            days_before_year(y as int) + d == days,
            days <= u64::MAX / 86400,
        decreases d,
    {
        d = d - year_length(y);
        y = y + 1;
    }
    let mut m: u64 = 1;
    proof {
        lemma_days_before_month_values(y as int);
    }
    while m < 12 && d >= month_length(y, m)
        invariant
            1 <= m <= 12,
            days_before_month(y as int, m as int) + d < year_len(y as int),
            days_before_year(y as int) + days_before_month(y as int, m as int) + d == days,
            days_before_month(y as int, 12) + 31 == year_len(y as int),
            forall|k: int| 1 <= k <= 12 ==> #[trigger] days_before_month(y as int, k + 1) == days_before_month(y as int, k) + month_len(y as int, k),
        decreases 12 - m,
    {
        d = d - month_length(y, m);
        m = m + 1;
    }
    let ghost gy = y as int;
    let ghost gm = m as int;
    let ghost gd = d + 1;
    assert(civil_date(days as int, gy, gm, gd));
    proof {
        let (y2, m2, d2) = calendar_date(days as int);
        lemma_civil_date_unique(days as int, gy, gm, gd, y2, m2, d2);
    }
    let mut out = String::new();
    push_decimal_padded(&mut out, y, 4);
    out.append("-");
    push_decimal_padded(&mut out, m, 2);
    out.append("-");
    push_decimal_padded(&mut out, d + 1, 2);
    proof {
        reveal_strlit("-");
    }
    assert(out@ =~= date_text(gy, gm, gd));
    out
}


/// `YYYY-MM-DD` of the UTC day of a Unix time.
pub open spec fn day_text(secs: u64) -> Seq<char> {
    let (y, m, d) = calendar_date((secs / 86400) as int);
    date_text(y, m, d)
}

/// Thirty days, in seconds.
pub const COMPLETED_WINDOW: u64 = 2592000;

/// The query for tasks completed from thirty days before `now` (clamped at the epoch) up to
/// the day after `now`.
pub fn completed_tasks_url(now: u64) -> (r: String)
    requires
        now <= u64::MAX - 86400,
    ensures
        r@ == BASE@ + "/tasks/completed/by_completion_date?since="@ + day_text(
            if now >= COMPLETED_WINDOW {
                (now - COMPLETED_WINDOW) as u64
            } else {
                0
            },
        ) + "&until="@ + day_text((now + 86400) as u64),
{
    let since_secs = if now >= COMPLETED_WINDOW {
        now - COMPLETED_WINDOW
    } else {
        0
    };
    let since = format_date(since_secs);
    let until = format_date(now + 86400);
    let mut url = String::from_str(BASE);
    url.append("/tasks/completed/by_completion_date?since=");
    url.append(since.as_str());
    url.append("&until=");
    url.append(until.as_str());
    assert(url@ =~= BASE@ + "/tasks/completed/by_completion_date?since="@ + day_text(since_secs)
        + "&until="@ + day_text((now + 86400) as u64));
    url
}

} // verus!
