//! Date predicates of the `dm:` (date modified) and `dc:` (date created)
//! filters.
//!
//! A predicate text is a keyword (`today`, `yesterday`, `thisweek`,
//! `lastweek`, `pastweek`, `thismonth`, `lastmonth`, `pastmonth`,
//! `thisyear`, `lastyear`, `pastyear`), an absolute date (`YYYY-MM-DD`,
//! `DD-MM-YYYY`, `MM-DD-YYYY`, with `-`, `/` or `.`), a comparison
//! (`<`, `<=`, `>`, `>=`, `=`, `!=` before a date) or a range
//! (`start..end`, either side may be left out).
//!
//! Reading the text is exact and deterministic (`date_query_syntax`).
//! Turning the dates into Unix timestamps needs the clock (for the
//! keywords) and the local time zone, which `chrono` supplies.

use chrono::Datelike;
use chrono::TimeZone;
use vstd::prelude::*;
use crate::error::{query_error, FilesystemError, Result};
use crate::query::size::{parse_comparison, parse_range, split_comparison, split_range};
use crate::strings::{chars_eq_str, chars_of, debug_quoted, lower_chars, lower_seq, trim, trim_chars};

verus! {

/// A calendar date of the proleptic Gregorian calendar.
#[derive(Debug, Clone, Copy, PartialEq, Eq, Structural)]
pub struct CivilDate {
    pub year: i32,
    pub month: u32,
    pub day: u32,
}

/// The first year a `chrono` date can hold.
pub open spec fn min_year() -> int {
    -262143
}

/// The last year a `chrono` date can hold.
pub open spec fn max_year() -> int {
    262142
}

/// Leap years of the proleptic Gregorian calendar.
pub open spec fn is_leap_year(y: int) -> bool {
    y % 4 == 0 && (y % 100 != 0 || y % 400 == 0)
}

/// The number of days of month `m` (1 to 12) in year `y`.
pub open spec fn days_in_month(y: int, m: int) -> int {
    if m == 2 {
        if is_leap_year(y) {
            29
        } else {
            28
        }
    } else if m == 4 || m == 6 || m == 9 || m == 11 {
        30
    } else {
        31
    }
}

/// A date that exists and lies in the range `chrono` supports.
pub open spec fn valid_date(d: CivilDate) -> bool {
    &&& min_year() <= d.year <= max_year()
    &&& 1 <= d.month <= 12
    &&& 1 <= d.day <= days_in_month(d.year as int, d.month as int)
}

/// The date with the given year, month and day, if it is valid.
pub open spec fn ymd_date(y: i32, m: u32, d: u32) -> Option<CivilDate> {
    let c = CivilDate { year: y, month: m, day: d };
    if valid_date(c) {
        Some(c)
    } else {
        None
    }
}

/// The calendar day before `d`; none before the first supported date.
pub open spec fn previous_day(d: CivilDate) -> Option<CivilDate> {
    if d.day > 1 {
        Some(CivilDate { year: d.year, month: d.month, day: (d.day - 1) as u32 })
    } else if d.month > 1 {
        Some(CivilDate { year: d.year, month: (d.month - 1) as u32, day: days_in_month(d.year as int, d.month - 1) as u32 })
    } else if d.year > min_year() {
        Some(CivilDate { year: (d.year - 1) as i32, month: 12, day: 31 })
    } else {
        None
    }
}

/// Day of the week of a date, counted from Monday (0) to Sunday (6).
pub uninterp spec fn weekday_of(d: CivilDate) -> u32;

/// The date `n` days before `d`, if it is supported.
pub uninterp spec fn date_minus_days(d: CivilDate, n: i64) -> Option<CivilDate>;

/// The date `n` days after `d`, if it is supported.
pub uninterp spec fn date_plus_days(d: CivilDate, n: i64) -> Option<CivilDate>;

/// The date `chrono` reads from text `s` in `strftime` format `fmt`.
pub uninterp spec fn date_from_format(s: Seq<char>, fmt: Seq<char>) -> Option<CivilDate>;

/// `chrono::NaiveDate::from_ymd_opt`: the date, when the calendar has it
/// and the year is in `chrono`'s range.
#[verifier::external_body]
fn civil_from_ymd(y: i32, m: u32, d: u32) -> (r: Option<CivilDate>)
    ensures
        r == ymd_date(y, m, d),
{
    match chrono::NaiveDate::from_ymd_opt(y, m, d) {
        Some(n) => Some(CivilDate { year: n.year(), month: n.month(), day: n.day() }),
        None => None,
    }
}

/// `chrono::NaiveDate::pred_opt`: the previous calendar day, none before
/// the first supported date.
#[verifier::external_body]
fn civil_previous_day(d: CivilDate) -> (r: Option<CivilDate>)
    requires
        valid_date(d),
    ensures
        r == previous_day(d),
{
    match chrono::NaiveDate::from_ymd_opt(d.year, d.month, d.day) {
        Some(n) => match n.pred_opt() {
            Some(p) => Some(CivilDate { year: p.year(), month: p.month(), day: p.day() }),
            None => None,
        },
        None => None,
    }
}

/// `chrono::Weekday::num_days_from_monday` of a date's weekday: Monday
/// is 0 and Sunday 6; 1970-01-01 was a Thursday, so it is the day count
/// from then plus 3, modulo 7.
#[verifier::external_body]
fn civil_weekday(d: CivilDate) -> (r: u32)
    requires
        valid_date(d),
    ensures
        r == weekday_of(d),
        r < 7,
        r == (epoch_day(d) + 3) % 7,
{
    match chrono::NaiveDate::from_ymd_opt(d.year, d.month, d.day) {
        Some(n) => n.weekday().num_days_from_monday(),
        None => 0,
    }
}

/// `chrono::NaiveDate::checked_sub_signed` by `n` whole days: the date
/// `n` days earlier, none when that day lies outside `chrono`'s range.
#[verifier::external_body]
fn civil_minus_days(d: CivilDate, n: i64) -> (r: Option<CivilDate>)
    requires
        valid_date(d),
        0 <= n <= 1000,
    ensures
        r == date_minus_days(d, n),
        r matches Some(x) ==> valid_date(x) && epoch_day(x) == epoch_day(d) - n,
        r is None ==> forall|x: CivilDate| valid_date(x) ==> epoch_day(x) != epoch_day(d) - n,
{
    match chrono::NaiveDate::from_ymd_opt(d.year, d.month, d.day) {
        Some(x) => match x.checked_sub_signed(chrono::Duration::days(n)) {
            Some(p) => Some(CivilDate { year: p.year(), month: p.month(), day: p.day() }),
            None => None,
        },
        None => None,
    }
}

/// `chrono::NaiveDate::checked_add_signed` by `n` whole days: the date
/// `n` days later, none when that day lies outside `chrono`'s range.
#[verifier::external_body]
fn civil_plus_days(d: CivilDate, n: i64) -> (r: Option<CivilDate>)
    requires
        valid_date(d),
        0 <= n <= 1000,
    ensures
        r == date_plus_days(d, n),
        r matches Some(x) ==> valid_date(x) && epoch_day(x) == epoch_day(d) + n,
        r is None ==> forall|x: CivilDate| valid_date(x) ==> epoch_day(x) != epoch_day(d) + n,
{
    match chrono::NaiveDate::from_ymd_opt(d.year, d.month, d.day) {
        Some(x) => match x.checked_add_signed(chrono::Duration::days(n)) {
            Some(p) => Some(CivilDate { year: p.year(), month: p.month(), day: p.day() }),
            None => None,
        },
        None => None,
    }
}

/// `chrono::NaiveDate::parse_from_str`: the date read from `s` in format
/// `fmt`, if it reads; a date it gives back is valid.
#[verifier::external_body]
fn civil_from_format(s: &str, fmt: &str) -> (r: Option<CivilDate>)
    ensures
        r == date_from_format(s@, fmt@),
        r matches Some(x) ==> valid_date(x),
{
    match chrono::NaiveDate::parse_from_str(s, fmt) {
        Ok(n) => Some(CivilDate { year: n.year(), month: n.month(), day: n.day() }),
        Err(_) => None,
    }
}

/// `chrono::Local::now` as a local calendar date. It depends on the clock
/// and the time zone, so nothing is said of which date it is beyond its
/// validity.
#[verifier::external_body]
fn local_today() -> (r: CivilDate)
    ensures
        valid_date(r),
{
    let n = chrono::Local::now().date_naive();
    CivilDate { year: n.year(), month: n.month(), day: n.day() }
}

/// The number of days from 1970-01-01 to `d` in the proleptic Gregorian
/// calendar (negative before it).
pub open spec fn epoch_day(d: CivilDate) -> int {
    let y: int = if d.month <= 2 { d.year - 1 } else { d.year as int };
    let era: int = y / 400;
    let yoe: int = y - era * 400;
    let mp: int = if d.month > 2 { d.month - 3 } else { d.month + 9 };
    let doy: int = (153 * mp + 2) / 5 + d.day - 1;
    let doe: int = yoe * 365 + yoe / 4 - yoe / 100 + doy;
    era * 146097 + doe - 719468
}

/// The Unix timestamp the wall-clock time `hour:min:sec` of date `d` would
/// have in UTC.
pub open spec fn wall_clock_seconds(d: CivilDate, hour: u32, min: u32, sec: u32) -> int {
    epoch_day(d) * 86400 + hour * 3600 + min * 60 + sec
}

/// `chrono::Local::from_local_datetime(..).single()`: the Unix timestamp
/// of a local wall-clock time on date `d`, when that local time exists
/// exactly once. Which offset applies depends on the machine's time zone,
/// so the result is only said to lie within a day of the same wall-clock
/// time in UTC: `chrono` subtracts an offset of the `FixedOffset` kind,
/// whose constructors refuse offsets of a whole day or more. When it is
/// `None` (a local time skipped or repeated) is not said either.
#[verifier::external_body]
fn local_timestamp(d: CivilDate, hour: u32, min: u32, sec: u32) -> (r: Option<i64>)
    requires
        valid_date(d),
        hour < 24,
        min < 60,
        sec < 60,
    ensures
        r matches Some(t) ==> wall_clock_seconds(d, hour, min, sec) - 86400 < t < wall_clock_seconds(d, hour, min, sec)
            + 86400,
{
    match chrono::NaiveDate::from_ymd_opt(d.year, d.month, d.day) {
        Some(n) => match n.and_hms_opt(hour, min, sec) {
            Some(t) => chrono::Local.from_local_datetime(&t).single().map(|x| x.timestamp()),
            None => None,
        },
        None => None,
    }
}

/// The comparison operators of a date predicate.
#[derive(Debug, Clone, Copy, PartialEq, Eq, Structural)]
pub enum DateComparisonOp {
    Lt,
    Lte,
    Gt,
    Gte,
    Eq,
    Ne,
}

/// The date keywords.
#[derive(Debug, Clone, Copy, PartialEq, Eq, Structural)]
pub enum DateKeyword {
    Today,
    Yesterday,
    ThisWeek,
    LastWeek,
    PastWeek,
    ThisMonth,
    LastMonth,
    PastMonth,
    ThisYear,
    LastYear,
    PastYear,
}

/// A date as written: a keyword or an absolute date.
#[derive(Debug, Clone, Copy, PartialEq, Eq, Structural)]
pub enum DateValueSyntax {
    Keyword(DateKeyword),
    Absolute(CivilDate),
}

/// A date predicate as written.
#[derive(Debug, Clone, Copy, PartialEq, Eq, Structural)]
pub enum DateQuery {
    Comparison(DateComparisonOp, DateValueSyntax),
    Range(Option<DateValueSyntax>, Option<DateValueSyntax>),
    Exact(DateValueSyntax),
}

/// The first and last second of a day or of a run of days, as Unix
/// timestamps.
#[derive(Debug, Clone, Copy, PartialEq, Eq, Structural)]
pub struct DateValue {
    pub start: i64,
    pub end: i64,
}

/// The timestamps a date predicate accepts.
#[derive(Debug, Clone, Copy, PartialEq, Eq, Structural)]
pub enum DatePredicateKind {
    /// Timestamps within the bounds, both inclusive; a missing bound is
    /// open.
    Range { start: Option<i64>, end: Option<i64> },
    /// Timestamps outside `start..=end`.
    NotEqual { start: i64, end: i64 },
}

/// A parsed date predicate: the text it was read from and the timestamps it
/// accepts.
#[derive(Debug, Clone, Copy, PartialEq, Eq, Structural)]
pub struct DatePredicate {
    pub kind: DatePredicateKind,
    pub query: DateQuery,
}

/// Whether a predicate kind accepts a timestamp.
pub open spec fn date_kind_accepts(kind: DatePredicateKind, ts: i64) -> bool {
    match kind {
        DatePredicateKind::Range { start, end } => (start matches Some(s) ==> s <= ts) && (end matches Some(e) ==> ts <= e),
        DatePredicateKind::NotEqual { start, end } => ts < start || ts > end,
    }
}

/// The keyword a lowercased text names.
pub open spec fn date_keyword(s: Seq<char>) -> Option<DateKeyword> {
    if s == "today"@ {
        Some(DateKeyword::Today)
    } else if s == "yesterday"@ {
        Some(DateKeyword::Yesterday)
    } else if s == "thisweek"@ {
        Some(DateKeyword::ThisWeek)
    } else if s == "lastweek"@ {
        Some(DateKeyword::LastWeek)
    } else if s == "thismonth"@ {
        Some(DateKeyword::ThisMonth)
    } else if s == "lastmonth"@ {
        Some(DateKeyword::LastMonth)
    } else if s == "thisyear"@ {
        Some(DateKeyword::ThisYear)
    } else if s == "lastyear"@ {
        Some(DateKeyword::LastYear)
    } else if s == "pastweek"@ {
        Some(DateKeyword::PastWeek)
    } else if s == "pastmonth"@ {
        Some(DateKeyword::PastMonth)
    } else if s == "pastyear"@ {
        Some(DateKeyword::PastYear)
    } else {
        None
    }
}

/// Date separators.
pub open spec fn is_date_sep(c: char) -> bool {
    c == '-' || c == '/' || c == '.'
}

/// Index of the first separator in `s`, or `s.len()`.
pub open spec fn first_sep(s: Seq<char>, i: int) -> int
    decreases s.len() - i,
{
    if i < 0 || i >= s.len() {
        s.len() as int
    } else if is_date_sep(s[i]) {
        i
    } else {
        first_sep(s, i + 1)
    }
}

/// Text that starts with four ASCII digits.
pub open spec fn year_first(s: Seq<char>) -> bool {
    s.len() >= 4 && (forall|i: int| 0 <= i < 4 ==> '0' <= #[trigger] s[i] <= '9')
}

/// The formats an absolute date is tried in, by separator and by whether
/// the text starts with a year.
pub open spec fn date_formats(sep: char, year_first: bool) -> Seq<Seq<char>> {
    if sep == '-' {
        if year_first {
            seq!["%Y-%m-%d"@]
        } else {
            seq!["%d-%m-%Y"@, "%m-%d-%Y"@, "%Y-%m-%d"@]
        }
    } else if sep == '/' {
        if year_first {
            seq!["%Y/%m/%d"@]
        } else {
            seq!["%m/%d/%Y"@, "%d/%m/%Y"@, "%Y/%m/%d"@]
        }
    } else {
        if year_first {
            seq!["%Y.%m.%d"@]
        } else {
            seq!["%d.%m.%Y"@, "%m.%d.%Y"@, "%Y.%m.%d"@]
        }
    }
}

/// The date read with the first format, from `i` on, that reads.
pub open spec fn first_format_date(s: Seq<char>, formats: Seq<Seq<char>>, i: int) -> Option<CivilDate>
    decreases formats.len() - i,
{
    if i < 0 || i >= formats.len() {
        None
    } else {
        match date_from_format(s, formats[i]) {
            Some(d) => Some(d),
            None => first_format_date(s, formats, i + 1),
        }
    }
}

/// An absolute date in one of the supported layouts.
pub open spec fn absolute_date(raw: Seq<char>) -> Option<CivilDate> {
    let t = trim(raw);
    let k = first_sep(t, 0);
    if k >= t.len() {
        None
    } else {
        first_format_date(t, date_formats(t[k], year_first(t)), 0)
    }
}

/// A date value: a keyword (in any case) or an absolute date.
pub open spec fn date_value_syntax(raw: Seq<char>) -> Option<DateValueSyntax> {
    let t = trim(raw);
    match date_keyword(lower_seq(t)) {
        Some(k) => Some(DateValueSyntax::Keyword(k)),
        None => match absolute_date(t) {
            Some(d) => Some(DateValueSyntax::Absolute(d)),
            None => None,
        },
    }
}

/// Operator code to date operator: 0 `<`, 1 `<=`, 2 `>`, 3 `>=`, 4 `=`, 5 `!=`.
pub open spec fn date_op_of(k: u8) -> DateComparisonOp {
    if k == 0 {
        DateComparisonOp::Lt
    } else if k == 1 {
        DateComparisonOp::Lte
    } else if k == 2 {
        DateComparisonOp::Gt
    } else if k == 3 {
        DateComparisonOp::Gte
    } else if k == 4 {
        DateComparisonOp::Eq
    } else {
        DateComparisonOp::Ne
    }
}

/// An optional side of a range: empty text is an open side.
pub open spec fn range_side(s: Seq<char>) -> Option<Option<DateValueSyntax>> {
    if s.len() == 0 {
        Some(None)
    } else {
        match date_value_syntax(s) {
            Some(v) => Some(Some(v)),
            None => None,
        }
    }
}

/// How a date predicate text reads: a comparison, then a range, then a
/// single date; none when the text is empty or a date does not read.
pub open spec fn date_query_syntax(raw: Seq<char>) -> Option<DateQuery> {
    let t = trim(raw);
    if t.len() == 0 {
        None
    } else {
        match split_comparison(t) {
            Some((k, v)) => match date_value_syntax(v) {
                Some(x) => Some(DateQuery::Comparison(date_op_of(k), x)),
                None => None,
            },
            None => match split_range(t) {
                Some((a, b)) => match (range_side(a), range_side(b)) {
                    (Some(x), Some(y)) => Some(DateQuery::Range(x, y)),
                    _ => None,
                },
                None => match date_value_syntax(t) {
                    Some(x) => Some(DateQuery::Exact(x)),
                    None => None,
                },
            },
        }
    }
}

/// The absolute dates of a value are valid.
pub open spec fn value_dates_valid(v: DateValueSyntax) -> bool {
    v matches DateValueSyntax::Absolute(d) ==> valid_date(d)
}

/// The absolute dates of a query are valid.
pub open spec fn query_dates_valid(q: DateQuery) -> bool {
    match q {
        DateQuery::Comparison(_, v) => value_dates_valid(v),
        DateQuery::Exact(v) => value_dates_valid(v),
        DateQuery::Range(a, b) => (a matches Some(v) ==> value_dates_valid(v)) && (b matches Some(v) ==> value_dates_valid(v)),
    }
}

/// `x - 1`, saturating at the lower end.
pub open spec fn saturating_dec(x: i64) -> i64 {
    if x == i64::MIN {
        x
    } else {
        (x - 1) as i64
    }
}

/// `x + 1`, saturating at the upper end.
pub open spec fn saturating_inc(x: i64) -> i64 {
    if x == i64::MAX {
        x
    } else {
        (x + 1) as i64
    }
}

/// The predicate a query gives once its dates are resolved: `lo` is the
/// value of a comparison, a single date or a range's start, `hi` a range's
/// end. A range whose start lies after its end gives none.
pub open spec fn predicate_for(q: DateQuery, lo: DateValue, hi: DateValue) -> Option<DatePredicate> {
    match q {
        DateQuery::Comparison(op, _) => Some(DatePredicate {
            kind: match op {
                DateComparisonOp::Lt => DatePredicateKind::Range { start: None, end: Some(saturating_dec(lo.start)) },
                DateComparisonOp::Lte => DatePredicateKind::Range { start: None, end: Some(lo.end) },
                DateComparisonOp::Gt => DatePredicateKind::Range { start: Some(saturating_inc(lo.end)), end: None },
                DateComparisonOp::Gte => DatePredicateKind::Range { start: Some(lo.start), end: None },
                DateComparisonOp::Eq => DatePredicateKind::Range { start: Some(lo.start), end: Some(lo.end) },
                DateComparisonOp::Ne => DatePredicateKind::NotEqual { start: lo.start, end: lo.end },
            },
            query: q,
        }),
        DateQuery::Exact(_) => Some(DatePredicate {
            kind: DatePredicateKind::Range { start: Some(lo.start), end: Some(lo.end) },
            query: q,
        }),
        DateQuery::Range(a, b) => {
            let s: Option<i64> = if a is Some { Some(lo.start) } else { None };
            let e: Option<i64> = if b is Some { Some(hi.end) } else { None };
            if a is Some && b is Some && lo.start > hi.end {
                None
            } else {
                Some(DatePredicate { kind: DatePredicateKind::Range { start: s, end: e }, query: q })
            }
        },
    }
}

/// Queries whose predicate the clock and the time zone cannot refuse: all
/// dates absolute, and not a range closed on both sides.
pub open spec fn always_resolves(q: DateQuery) -> bool {
    match q {
        DateQuery::Comparison(_, v) => v is Absolute,
        DateQuery::Exact(v) => v is Absolute,
        DateQuery::Range(a, b) => !(a is Some && b is Some) && (a matches Some(v) ==> v is Absolute) && (b matches Some(v) ==> v is Absolute),
    }
}

/// The first and last day of the month `m` of year `y`.
pub open spec fn month_dates(y: i32, m: u32) -> Option<(CivilDate, CivilDate)> {
    match ymd_date(y, m, 1) {
        None => None,
        Some(s) => match last_day_spec(y, m) {
            None => None,
            Some(ld) => match ymd_date(y, m, ld) {
                None => None,
                Some(e) => Some((s, e)),
            },
        },
    }
}

/// The first and last day of year `y`.
pub open spec fn year_dates(y: i32) -> Option<(CivilDate, CivilDate)> {
    match (ymd_date(y, 1, 1), ymd_date(y, 12, 31)) {
        (Some(s), Some(e)) => Some((s, e)),
        _ => None,
    }
}

/// The `n` days that end with `today`.
pub open spec fn trailing_dates(today: CivilDate, n: i64) -> Option<(CivilDate, CivilDate)> {
    match date_minus_days(today, (n - 1) as i64) {
        Some(s) => Some((s, today)),
        None => None,
    }
}

/// The Monday-to-Sunday week that starts `back` days before `today`.
pub open spec fn week_dates(today: CivilDate, back: i64) -> Option<(CivilDate, CivilDate)> {
    match date_minus_days(today, back) {
        None => None,
        Some(s) => match date_plus_days(s, 6) {
            None => None,
            Some(e) => Some((s, e)),
        },
    }
}

/// The first and last day a keyword denotes, seen from `today`.
pub open spec fn keyword_dates(k: DateKeyword, today: CivilDate) -> Option<(CivilDate, CivilDate)> {
    let y = today.year;
    let m = today.month;
    match k {
        DateKeyword::Today => Some((today, today)),
        DateKeyword::Yesterday => match previous_day(today) {
            Some(d) => Some((d, d)),
            None => None,
        },
        DateKeyword::ThisWeek => week_dates(today, weekday_of(today) as i64),
        DateKeyword::LastWeek => week_dates(today, (weekday_of(today) + 7) as i64),
        DateKeyword::ThisMonth => month_dates(y, m),
        DateKeyword::LastMonth => if m == 1 {
            if y == i32::MIN {
                None
            } else {
                month_dates((y - 1) as i32, 12)
            }
        } else {
            month_dates(y, (m - 1) as u32)
        },
        DateKeyword::ThisYear => year_dates(y),
        DateKeyword::LastYear => if y == i32::MIN {
            None
        } else {
            year_dates((y - 1) as i32)
        },
        DateKeyword::PastWeek => trailing_dates(today, 7),
        DateKeyword::PastMonth => trailing_dates(today, 30),
        DateKeyword::PastYear => trailing_dates(today, 365),
    }
}

/// The whole month `m` of year `y`, from its first to its last day.
pub open spec fn whole_month(y: int, m: int) -> (CivilDate, CivilDate) {
    (CivilDate { year: y as i32, month: m as u32, day: 1 }, CivilDate {
        year: y as i32,
        month: m as u32,
        day: days_in_month(y, m) as u32,
    })
}

proof fn lemma_month_dates(y: i32, m: u32)
    requires
        min_year() <= y <= max_year(),
        1 <= m <= 12,
        m == 12 ==> y < max_year(),
    ensures
        month_dates(y, m) == Some(whole_month(y as int, m as int)),
{
    let next: (i32, u32) = if m == 12 { ((y + 1) as i32, 1u32) } else { (y, (m + 1) as u32) };
    assert(ymd_date(next.0, next.1, 1) is Some);
    assert(days_in_month(y as int, m as int) >= 28);
}

/// The year keywords name whole calendar years: `thisyear` is January 1
/// to December 31 of today's year, `lastyear` the same days of the year
/// before (none before the first supported year), so the two never meet.
pub proof fn law_year_keywords(today: CivilDate)
    requires
        valid_date(today),
    ensures
        keyword_dates(DateKeyword::ThisYear, today) == Some((CivilDate { year: today.year, month: 1, day: 1 }, CivilDate {
            year: today.year,
            month: 12,
            day: 31,
        })),
        today.year > min_year() ==> keyword_dates(DateKeyword::LastYear, today) == Some((CivilDate {
            year: (today.year - 1) as i32,
            month: 1,
            day: 1,
        }, CivilDate { year: (today.year - 1) as i32, month: 12, day: 31 })),
        today.year == min_year() ==> keyword_dates(DateKeyword::LastYear, today) is None,
        keyword_dates(DateKeyword::LastYear, today) matches Some((s, e)) ==> s.year == today.year - 1 && e.year
            == today.year - 1,
{
}

/// The day keywords: `today` is just today; `yesterday` is just the
/// calendar day before it (the last day of the previous month on a first
/// of the month, December 31 of the previous year on January 1).
pub proof fn law_day_keywords(today: CivilDate)
    requires
        valid_date(today),
    ensures
        keyword_dates(DateKeyword::Today, today) == Some((today, today)),
        today.day > 1 ==> keyword_dates(DateKeyword::Yesterday, today) == Some((CivilDate {
            year: today.year,
            month: today.month,
            day: (today.day - 1) as u32,
        }, CivilDate { year: today.year, month: today.month, day: (today.day - 1) as u32 })),
        (today.day == 1 && today.month > 1) ==> keyword_dates(DateKeyword::Yesterday, today) == Some((
            whole_month(today.year as int, today.month - 1).1,
            whole_month(today.year as int, today.month - 1).1,
        )),
        (today.day == 1 && today.month == 1 && today.year > min_year()) ==> keyword_dates(DateKeyword::Yesterday, today)
            == Some((whole_month(today.year - 1, 12).1, whole_month(today.year - 1, 12).1)),
{
}

/// The trailing keywords end today and reach back over their length:
/// `pastweek` the 7 days ending today, `pastmonth` 30, `pastyear` 365; the
/// week keywords run Monday to Sunday, `thisweek` the week holding today
/// and `lastweek` the one before it.
pub proof fn law_span_keywords(today: CivilDate)
    requires
        valid_date(today),
    ensures
        keyword_dates(DateKeyword::PastWeek, today) == match date_minus_days(today, 6) {
            Some(s) => Some((s, today)),
            None => None,
        },
        keyword_dates(DateKeyword::PastMonth, today) == match date_minus_days(today, 29) {
            Some(s) => Some((s, today)),
            None => None,
        },
        keyword_dates(DateKeyword::PastYear, today) == match date_minus_days(today, 364) {
            Some(s) => Some((s, today)),
            None => None,
        },
        keyword_dates(DateKeyword::ThisWeek, today) == week_dates(today, weekday_of(today) as i64),
        keyword_dates(DateKeyword::LastWeek, today) == week_dates(today, (weekday_of(today) + 7) as i64),
        forall|back: i64| #[trigger] week_dates(today, back) matches Some((s, e)) ==> date_minus_days(today, back) == Some(s)
            && date_plus_days(s, 6) == Some(e),
{
}

/// The month keywords name whole calendar months: `thismonth` is today's
/// month from its first to its last day, `lastmonth` the month before it
/// (December of the year before, in January), when those days are
/// supported.
pub proof fn law_month_keywords(today: CivilDate)
    requires
        valid_date(today),
    ensures
        (today.month < 12 || today.year < max_year()) ==> keyword_dates(DateKeyword::ThisMonth, today) == Some(
            whole_month(today.year as int, today.month as int)),
        today.month > 1 ==> keyword_dates(DateKeyword::LastMonth, today) == Some(
            whole_month(today.year as int, today.month - 1)),
        (today.month == 1 && today.year > min_year()) ==> keyword_dates(DateKeyword::LastMonth, today) == Some(
            whole_month(today.year - 1, 12)),
{
    if today.month < 12 || today.year < max_year() {
        lemma_month_dates(today.year, today.month);
    }
    if today.month > 1 {
        lemma_month_dates(today.year, (today.month - 1) as u32);
    }
    if today.month == 1 && today.year > min_year() {
        lemma_month_dates((today.year - 1) as i32, 12);
    }
}

/// The last day of month `month` of `year`: the day before the first of the
/// next month.
pub open spec fn last_day_spec(year: i32, month: u32) -> Option<u32> {
    let next: (i32, u32) = if month == 12 { ((year + 1) as i32, 1u32) } else { (year, (month + 1) as u32) };
    match ymd_date(next.0, next.1, 1) {
        None => None,
        Some(first) => match previous_day(first) {
            None => None,
            Some(p) => Some(p.day),
        },
    }
}

/// Returns the last day of a month.
pub fn last_day_of_month(year: i32, month: u32) -> (r: Option<u32>)
    requires
        month == 12 ==> year < i32::MAX,
        month < u32::MAX,
    ensures
        r == last_day_spec(year, month),
        1 <= month <= 12 && min_year() <= year && (if month == 12 { year < max_year() } else { year <= max_year() })
            ==> r == Some(days_in_month(year as int, month as int) as u32),
{
    let (next_year, next_month) = if month == 12 {
        (year + 1, 1u32)
    } else {
        (year, month + 1)
    };
    let first = match civil_from_ymd(next_year, next_month, 1) {
        Some(d) => d,
        None => return None,
    };
    match civil_previous_day(first) {
        Some(p) => Some(p.day),
        None => None,
    }
}

/// Parses a keyword, already lowercased.
fn keyword_of(s: &Vec<char>) -> (r: Option<DateKeyword>)
    ensures
        r == date_keyword(s@),
{
    if chars_eq_str(s, "today") {
        Some(DateKeyword::Today)
    } else if chars_eq_str(s, "yesterday") {
        Some(DateKeyword::Yesterday)
    } else if chars_eq_str(s, "thisweek") {
        Some(DateKeyword::ThisWeek)
    } else if chars_eq_str(s, "lastweek") {
        Some(DateKeyword::LastWeek)
    } else if chars_eq_str(s, "thismonth") {
        Some(DateKeyword::ThisMonth)
    } else if chars_eq_str(s, "lastmonth") {
        Some(DateKeyword::LastMonth)
    } else if chars_eq_str(s, "thisyear") {
        Some(DateKeyword::ThisYear)
    } else if chars_eq_str(s, "lastyear") {
        Some(DateKeyword::LastYear)
    } else if chars_eq_str(s, "pastweek") {
        Some(DateKeyword::PastWeek)
    } else if chars_eq_str(s, "pastmonth") {
        Some(DateKeyword::PastMonth)
    } else if chars_eq_str(s, "pastyear") {
        Some(DateKeyword::PastYear)
    } else {
        None
    }
}

/// The formats to try for a separator and a year-first layout.
fn date_format_list(sep: char, year_first: bool) -> (r: Vec<&'static str>)
    requires
        is_date_sep(sep),
    ensures
        r@.map_values(|x: &str| x@) == date_formats(sep, year_first),
{
    let r: Vec<&'static str> = if sep == '-' {
        if year_first {
            vec!["%Y-%m-%d"]
        } else {
            vec!["%d-%m-%Y", "%m-%d-%Y", "%Y-%m-%d"]
        }
    } else if sep == '/' {
        if year_first {
            vec!["%Y/%m/%d"]
        } else {
            vec!["%m/%d/%Y", "%d/%m/%Y", "%Y/%m/%d"]
        }
    } else {
        if year_first {
            vec!["%Y.%m.%d"]
        } else {
            vec!["%d.%m.%Y", "%m.%d.%Y", "%Y.%m.%d"]
        }
    };
    assert(r@.map_values(|x: &str| x@) =~= date_formats(sep, year_first));
    r
}

/// Parses an absolute date in one of the supported layouts.
fn parse_absolute_date(raw: &Vec<char>) -> (r: Option<CivilDate>)
    ensures
        r == absolute_date(raw@),
        r matches Some(d) ==> valid_date(d),
{
    let t = trim_chars(raw);
    let mut k: usize = 0;
    while k < t.len() && t[k] != '-' && t[k] != '/' && t[k] != '.'
        invariant
            k <= t.len(),
            first_sep(t@, 0) == first_sep(t@, k as int),
        decreases t.len() - k,
    {
        k = k + 1;
    }
    if k >= t.len() {
        return None;
    }
    assert(first_sep(t@, 0) == k);
    let digits = t.len() >= 4 && '0' <= t[0] && t[0] <= '9' && '0' <= t[1] && t[1] <= '9'
        && '0' <= t[2] && t[2] <= '9' && '0' <= t[3] && t[3] <= '9';
    proof {
        if digits {
            assert forall|i: int| 0 <= i < 4 implies '0' <= #[trigger] t@[i] <= '9' by {
                if i == 0 {
                } else if i == 1 {
                } else if i == 2 {
                } else {
                }
            }
        }
        if year_first(t@) {
            assert('0' <= t@[0] <= '9');
            assert('0' <= t@[1] <= '9');
            assert('0' <= t@[2] <= '9');
            assert('0' <= t@[3] <= '9');
        }
    }
    assert(digits == year_first(t@));
    let formats = date_format_list(t[k], digits);
    let text = crate::strings::string_of(&t);
    let mut i: usize = 0;
    while i < formats.len()
        invariant
            i <= formats.len(),
            text@ == t@,
            t@ == trim(raw@),
            first_sep(t@, 0) < t@.len(),
            formats@.map_values(|x: &str| x@) == date_formats(t@[first_sep(t@, 0)], year_first(t@)),
            first_format_date(t@, date_formats(t@[first_sep(t@, 0)], year_first(t@)), 0)
                == first_format_date(t@, date_formats(t@[first_sep(t@, 0)], year_first(t@)), i as int),
        decreases formats.len() - i,
    {
        let f = formats[i];
        assert(formats@.map_values(|x: &str| x@)[i as int] == f@);
        match civil_from_format(text.as_str(), f) {
            Some(d) => return Some(d),
            None => {},
        }
        i = i + 1;
    }
    None
}

/// Parses a date value: a keyword first, then an absolute date.
fn parse_date_value(raw: &Vec<char>) -> (r: Option<DateValueSyntax>)
    ensures
        r == date_value_syntax(raw@),
        r matches Some(v) ==> value_dates_valid(v),
{
    let t = trim_chars(raw);
    let lower = lower_chars(&t);
    match keyword_of(&lower) {
        Some(k) => Some(DateValueSyntax::Keyword(k)),
        None => match parse_absolute_date(&t) {
            Some(d) => {
                proof {
                    assert(trim(t@) == t@) by {
                        crate::strings::lemma_trim_idempotent(raw@);
                    }
                }
                Some(DateValueSyntax::Absolute(d))
            },
            None => {
                proof {
                    crate::strings::lemma_trim_idempotent(raw@);
                }
                None
            },
        },
    }
}

/// Reads an optional side of a range.
fn parse_range_side(s: &Vec<char>) -> (r: Option<Option<DateValueSyntax>>)
    ensures
        r == range_side(s@),
        r matches Some(Some(v)) ==> value_dates_valid(v),
{
    if s.len() == 0 {
        Some(None)
    } else {
        match parse_date_value(s) {
            Some(v) => Some(Some(v)),
            None => None,
        }
    }
}

/// Reads a date predicate text.
pub fn parse_date_query(raw: &str) -> (r: Option<DateQuery>)
    ensures
        r == date_query_syntax(raw@),
        r matches Some(q) ==> query_dates_valid(q),
{
    let v = chars_of(raw);
    let t = trim_chars(&v);
    if t.len() == 0 {
        return None;
    }
    match parse_comparison(&t) {
        Some((k, rest)) => {
            let op = if k == 0 {
                DateComparisonOp::Lt
            } else if k == 1 {
                DateComparisonOp::Lte
            } else if k == 2 {
                DateComparisonOp::Gt
            } else if k == 3 {
                DateComparisonOp::Gte
            } else if k == 4 {
                DateComparisonOp::Eq
            } else {
                DateComparisonOp::Ne
            };
            match parse_date_value(&rest) {
                Some(x) => Some(DateQuery::Comparison(op, x)),
                None => None,
            }
        },
        None => match parse_range(&t) {
            Some((a, b)) => {
                let sa = parse_range_side(&a);
                let sb = parse_range_side(&b);
                match (sa, sb) {
                    (Some(x), Some(y)) => Some(DateQuery::Range(x, y)),
                    _ => None,
                }
            },
            None => match parse_date_value(&t) {
                Some(x) => {
                    proof {
                        crate::strings::lemma_trim_idempotent(v@);
                    }
                    Some(DateQuery::Exact(x))
                },
                None => {
                    proof {
                        crate::strings::lemma_trim_idempotent(v@);
                    }
                    None
                },
            },
        },
    }
}

/// The first and last day of a month.
fn month_range_dates(y: i32, m: u32) -> (r: Option<(CivilDate, CivilDate)>)
    requires
        min_year() <= y <= max_year(),
        1 <= m <= 12,
    ensures
        r == month_dates(y, m),
        r matches Some((s, e)) ==> valid_date(s) && valid_date(e),
{
    let s = match civil_from_ymd(y, m, 1) {
        Some(s) => s,
        None => return None,
    };
    let ld = match last_day_of_month(y, m) {
        Some(ld) => ld,
        None => return None,
    };
    match civil_from_ymd(y, m, ld) {
        Some(e) => Some((s, e)),
        None => None,
    }
}

/// The first and last day of a year.
fn year_range_dates(y: i32) -> (r: Option<(CivilDate, CivilDate)>)
    ensures
        r == year_dates(y),
        r matches Some((s, e)) ==> valid_date(s) && valid_date(e),
{
    match (civil_from_ymd(y, 1, 1), civil_from_ymd(y, 12, 31)) {
        (Some(s), Some(e)) => Some((s, e)),
        _ => None,
    }
}

/// The Monday-to-Sunday week starting `back` days before `today`.
fn week_range_dates(today: CivilDate, back: i64) -> (r: Option<(CivilDate, CivilDate)>)
    requires
        valid_date(today),
        0 <= back <= 13,
    ensures
        r == week_dates(today, back),
        r matches Some((s, e)) ==> valid_date(s) && valid_date(e),
{
    let s = match civil_minus_days(today, back) {
        Some(s) => s,
        None => return None,
    };
    match civil_plus_days(s, 6) {
        Some(e) => Some((s, e)),
        None => None,
    }
}

/// The `n` days ending with `today`.
fn trailing_range_dates(today: CivilDate, n: i64) -> (r: Option<(CivilDate, CivilDate)>)
    requires
        valid_date(today),
        1 <= n <= 365,
    ensures
        r == trailing_dates(today, n),
        r matches Some((s, e)) ==> valid_date(s) && valid_date(e),
{
    match civil_minus_days(today, n - 1) {
        Some(s) => Some((s, today)),
        None => None,
    }
}

/// The first and last day a keyword denotes, seen from `today`.
pub fn keyword_range_dates(k: DateKeyword, today: CivilDate) -> (r: Option<(CivilDate, CivilDate)>)
    requires
        valid_date(today),
    ensures
        r == keyword_dates(k, today),
        r matches Some((s, e)) ==> valid_date(s) && valid_date(e),
{
    let y = today.year;
    let m = today.month;
    match k {
        DateKeyword::Today => Some((today, today)),
        DateKeyword::Yesterday => match civil_previous_day(today) {
            Some(d) => {
                proof {
                    lemma_previous_day_valid(today);
                }
                Some((d, d))
            },
            None => None,
        },
        DateKeyword::ThisWeek => {
            let w = civil_weekday(today);
            week_range_dates(today, w as i64)
        },
        DateKeyword::LastWeek => {
            let w = civil_weekday(today);
            week_range_dates(today, w as i64 + 7)
        },
        DateKeyword::ThisMonth => month_range_dates(y, m),
        DateKeyword::LastMonth => {
            if m == 1 {
                if y == i32::MIN {
                    None
                } else if y - 1 < -262143 {
                    proof {
                        assert(ymd_date((y - 1) as i32, 12, 1) is None);
                    }
                    None
                } else {
                    month_range_dates(y - 1, 12)
                }
            } else {
                month_range_dates(y, m - 1)
            }
        },
        DateKeyword::ThisYear => year_range_dates(y),
        DateKeyword::LastYear => {
            if y == i32::MIN {
                None
            } else {
                year_range_dates(y - 1)
            }
        },
        DateKeyword::PastWeek => trailing_range_dates(today, 7),
        DateKeyword::PastMonth => trailing_range_dates(today, 30),
        DateKeyword::PastYear => trailing_range_dates(today, 365),
    }
}

/// The day before a valid date is valid.
pub proof fn lemma_previous_day_valid(d: CivilDate)
    requires
        valid_date(d),
    ensures
        previous_day(d) matches Some(p) ==> valid_date(p),
{
}

/// Combines the timestamps of a day's first and last second; a local time
/// that does not exist exactly once reads as the earliest or latest
/// timestamp.
pub fn day_value(start: Option<i64>, end: Option<i64>) -> (r: DateValue)
    ensures
        r.start == (match start { Some(s) => s, None => 0 }),
        r.end == (match end { Some(e) => e, None => i64::MAX }),
{
    DateValue {
        start: match start {
            Some(s) => s,
            None => 0,
        },
        end: match end {
            Some(e) => e,
            None => i64::MAX,
        },
    }
}

/// The first and last second, in local time, of the days `start` to `end`:
/// each lies within a day of the same wall-clock time in UTC, and a bound
/// whose local time does not exist exactly once is left open (0 for the
/// start, `i64::MAX` for the end).
fn dates_value(start: CivilDate, end: CivilDate) -> (r: DateValue)
    requires
        valid_date(start),
        valid_date(end),
    ensures
        r.start == 0 || wall_clock_seconds(start, 0, 0, 0) - 86400 < r.start < wall_clock_seconds(start, 0, 0, 0) + 86400,
        r.end == i64::MAX || wall_clock_seconds(end, 23, 59, 59) - 86400 < r.end < wall_clock_seconds(end, 23, 59, 59)
            + 86400,
{
    let s = local_timestamp(start, 0, 0, 0);
    let e = local_timestamp(end, 23, 59, 59);
    day_value(s, e)
}

/// The first and last day a date value denotes, seen from `today`.
pub open spec fn value_dates(v: DateValueSyntax, today: CivilDate) -> Option<(CivilDate, CivilDate)> {
    match v {
        DateValueSyntax::Absolute(d) => Some((d, d)),
        DateValueSyntax::Keyword(k) => keyword_dates(k, today),
    }
}

/// Bounds `x` are the local first second of day `s` and last second of day
/// `e`, each within a day of the same wall-clock time in UTC, or left open
/// (0 for the start, `i64::MAX` for the end) when that local time does not
/// exist exactly once.
pub open spec fn bounds_near(x: DateValue, s: CivilDate, e: CivilDate) -> bool {
    &&& x.start == 0 || wall_clock_seconds(s, 0, 0, 0) - 86400 < x.start < wall_clock_seconds(s, 0, 0, 0) + 86400
    &&& x.end == i64::MAX || wall_clock_seconds(e, 23, 59, 59) - 86400 < x.end < wall_clock_seconds(e, 23, 59, 59) + 86400
}

/// `x` is what value `v` resolves to, seen from `today`.
pub open spec fn value_resolved(v: DateValueSyntax, today: CivilDate, x: DateValue) -> bool {
    value_dates(v, today) matches Some((s, e)) && bounds_near(x, s, e)
}

/// `lo` and `hi` are what the dates of `q` resolve to, seen from `today`:
/// `lo` for a comparison's or a single date's value and a range's start,
/// `hi` for a range's end.
pub open spec fn query_resolved(q: DateQuery, today: CivilDate, lo: DateValue, hi: DateValue) -> bool {
    match q {
        DateQuery::Comparison(_, v) => value_resolved(v, today, lo),
        DateQuery::Exact(v) => value_resolved(v, today, lo),
        DateQuery::Range(a, b) => (a matches Some(v) ==> value_resolved(v, today, lo))
            && (b matches Some(v) ==> value_resolved(v, today, hi)),
    }
}

/// Every date value of `q` denotes some days, seen from `today`.
pub open spec fn query_dates_exist(q: DateQuery, today: CivilDate) -> bool {
    match q {
        DateQuery::Comparison(_, v) => value_dates(v, today) is Some,
        DateQuery::Exact(v) => value_dates(v, today) is Some,
        DateQuery::Range(a, b) => (a matches Some(v) ==> value_dates(v, today) is Some)
            && (b matches Some(v) ==> value_dates(v, today) is Some),
    }
}

/// The predicate `p` is what query `q` gives seen from `today`: its
/// bounds are those of the days `q` names, in local time.
pub open spec fn predicate_resolved(q: DateQuery, today: CivilDate, p: DatePredicate) -> bool {
    exists|lo: DateValue, hi: DateValue| query_resolved(q, today, lo, hi) && predicate_for(q, lo, hi) == Some(p)
}

/// `=D` and `!=D` resolved to the same bounds are complements, and a
/// single date `D` reads like `=D`.
pub proof fn law_equal_and_not_equal_are_complements(v: DateValueSyntax, lo: DateValue, hi: DateValue, t: i64)
    ensures
        date_kind_accepts(predicate_for(DateQuery::Comparison(DateComparisonOp::Eq, v), lo, hi)->0.kind, t)
            == !date_kind_accepts(predicate_for(DateQuery::Comparison(DateComparisonOp::Ne, v), lo, hi)->0.kind, t),
        predicate_for(DateQuery::Exact(v), lo, hi)->0.kind == predicate_for(DateQuery::Comparison(DateComparisonOp::Eq, v), lo, hi)->0.kind,
{
}

/// A range between two absolute dates whose start day comes at least three
/// days after its end day.
pub open spec fn reversed_range(q: DateQuery) -> bool {
    match q {
        DateQuery::Range(Some(DateValueSyntax::Absolute(a)), Some(DateValueSyntax::Absolute(b))) => epoch_day(a)
            >= epoch_day(b) + 3,
        _ => false,
    }
}

/// A range with its start at 0 or its end at `i64::MAX`: a bound whose
/// local time did not exist exactly once.
pub open spec fn has_unresolved_bound(kind: DatePredicateKind) -> bool {
    kind matches DatePredicateKind::Range { start, end } && (start == Some(0i64) || end == Some(i64::MAX))
}

/// Seen from `today`, query `q` gives no predicate: a value names no days,
/// or it is a range whose resolved start lies after its resolved end.
pub open spec fn unresolvable(q: DateQuery, today: CivilDate) -> bool {
    !query_dates_exist(q, today) || exists|lo: DateValue, hi: DateValue| query_resolved(q, today, lo, hi)
        && predicate_for(q, lo, hi) is None
}

/// Resolves a date value against `today` and the local time zone; none when
/// a keyword's dates fall outside the supported range.
fn resolve_value(v: DateValueSyntax, today: CivilDate) -> (r: Option<DateValue>)
    requires
        valid_date(today),
        value_dates_valid(v),
    ensures
        r is Some <==> value_dates(v, today) is Some,
        r matches Some(x) ==> value_resolved(v, today, x),
{
    match v {
        DateValueSyntax::Absolute(d) => Some(dates_value(d, d)),
        DateValueSyntax::Keyword(k) => match keyword_range_dates(k, today) {
            Some((s, e)) => Some(dates_value(s, e)),
            None => None,
        },
    }
}

impl DatePredicate {
    /// Builds the predicate of a query from its resolved dates (see
    /// `predicate_for`); a range whose start lies after its end is an
    /// error.
    pub fn from_values(q: DateQuery, lo: DateValue, hi: DateValue) -> (r: Result<DatePredicate>)
        ensures
            match predicate_for(q, lo, hi) {
                Some(p) => r matches Ok(x) && x == p,
                None => r matches Err(FilesystemError::QueryParse(_)),
            },
    {
        match q {
            DateQuery::Comparison(op, _) => {
                let kind = match op {
                    DateComparisonOp::Lt => DatePredicateKind::Range { start: None, end: Some(if lo.start == i64::MIN { lo.start } else { lo.start - 1 }) },
                    DateComparisonOp::Lte => DatePredicateKind::Range { start: None, end: Some(lo.end) },
                    DateComparisonOp::Gt => DatePredicateKind::Range { start: Some(if lo.end == i64::MAX { lo.end } else { lo.end + 1 }), end: None },
                    DateComparisonOp::Gte => DatePredicateKind::Range { start: Some(lo.start), end: None },
                    DateComparisonOp::Eq => DatePredicateKind::Range { start: Some(lo.start), end: Some(lo.end) },
                    DateComparisonOp::Ne => DatePredicateKind::NotEqual { start: lo.start, end: lo.end },
                };
                Ok(DatePredicate { kind, query: q })
            },
            DateQuery::Exact(_) => Ok(DatePredicate {
                kind: DatePredicateKind::Range { start: Some(lo.start), end: Some(lo.end) },
                query: q,
            }),
            DateQuery::Range(a, b) => {
                if a.is_some() && b.is_some() && lo.start > hi.end {
                    return Err(query_error("date range start must be before or equal to end"));
                }
                let s = if a.is_some() { Some(lo.start) } else { None };
                let e = if b.is_some() { Some(hi.end) } else { None };
                Ok(DatePredicate { kind: DatePredicateKind::Range { start: s, end: e }, query: q })
            },
        }
    }

    /// Parses a date predicate from the raw filter argument.
    ///
    /// What the text says is read exactly (`date_query_syntax`); the
    /// timestamps depend on the clock and the local time zone. A text that
    /// does not read is an error; one that reads gives a predicate shaped by
    /// `predicate_for`, and always does when `always_resolves` holds of it.
    pub fn parse(raw: &str) -> (r: Result<Self>)
        ensures
            date_query_syntax(raw@) is None ==> r matches Err(FilesystemError::QueryParse(_)),
            r matches Ok(p) ==> date_query_syntax(raw@) == Some(p.query)
                && exists|today: CivilDate| valid_date(today) && predicate_resolved(p.query, today, p),
            (date_query_syntax(raw@) matches Some(q) && always_resolves(q)) ==> r is Ok,
            (date_query_syntax(raw@) is Some && r is Err) ==> exists|today: CivilDate| valid_date(today)
                && unresolvable(date_query_syntax(raw@)->0, today),
            r matches Err(e) ==> e is QueryParse,
            r matches Ok(p) ==> (reversed_range(p.query) ==> has_unresolved_bound(p.kind)),
    {
        let q = match parse_date_query(raw) {
            Some(q) => q,
            None => {
                let v = chars_of(raw);
                let t = trim_chars(&v);
                if t.len() == 0 {
                    return Err(query_error("date filter requires a value"));
                }
                let message = crate::strings::concat_strs("unrecognized date value: ", debug_quoted(raw).as_str());
                return Err(FilesystemError::QueryParse(message));
            },
        };
        let today = local_today();
        let unresolved = DateValue { start: 0, end: 0 };
        let (lo, hi) = match q {
            DateQuery::Comparison(_, v) => match resolve_value(v, today) {
                Some(x) => (x, x),
                None => {
                    proof {
                        assert(unresolvable(q, today));
                    }
                    return Err(query_error("unrecognized date value"));
                },
            },
            DateQuery::Exact(v) => match resolve_value(v, today) {
                Some(x) => (x, x),
                None => {
                    proof {
                        assert(unresolvable(q, today));
                    }
                    return Err(query_error("unrecognized date value"));
                },
            },
            DateQuery::Range(a, b) => {
                let lo = match a {
                    Some(v) => match resolve_value(v, today) {
                        Some(x) => x,
                        None => {
                    proof {
                        assert(unresolvable(q, today));
                    }
                    return Err(query_error("unrecognized date value"));
                },
                    },
                    None => unresolved,
                };
                let hi = match b {
                    Some(v) => match resolve_value(v, today) {
                        Some(x) => x,
                        None => {
                    proof {
                        assert(unresolvable(q, today));
                    }
                    return Err(query_error("unrecognized date value"));
                },
                    },
                    None => unresolved,
                };
                (lo, hi)
            },
        };
        let r = DatePredicate::from_values(q, lo, hi);
        proof {
            assert(query_resolved(q, today, lo, hi));
            if r is Err {
                assert(unresolvable(q, today));
            }
            if r is Ok {
                assert(predicate_for(q, lo, hi) == Some(r->Ok_0));
                assert(predicate_resolved(q, today, r->Ok_0));
            }
        }
        r
    }

    /// Checks if a timestamp (in seconds) matches this predicate.
    pub fn matches(&self, timestamp: i64) -> (r: bool)
        ensures
            r == date_kind_accepts(self.kind, timestamp),
    {
        match self.kind {
            DatePredicateKind::Range { start, end } => {
                if let Some(bound) = start {
                    if timestamp < bound {
                        return false;
                    }
                }
                if let Some(bound) = end {
                    if timestamp > bound {
                        return false;
                    }
                }
                true
            },
            DatePredicateKind::NotEqual { start, end } => timestamp < start || timestamp > end,
        }
    }
}

} // verus!
