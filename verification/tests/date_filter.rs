use chrono::{Duration, Local, NaiveDate, TimeZone};
use filesystem::query::date_filter::{last_day_of_month, parse_date_query, DatePredicate};

fn local_noon(year: i32, month: u32, day: u32) -> i64 {
    let date = NaiveDate::from_ymd_opt(year, month, day).unwrap();
    let dt = date.and_hms_opt(12, 0, 0).unwrap();
    Local.from_local_datetime(&dt).single().unwrap().timestamp()
}

#[test]
fn parse_today_keyword() {
    let predicate = DatePredicate::parse("today").expect("parse");
    let today_ts = Local::now().timestamp();
    assert!(predicate.matches(today_ts), "should match today's timestamp");
}

#[test]
fn parse_yesterday_keyword() {
    let predicate = DatePredicate::parse("yesterday").expect("parse");
    let yesterday_ts = (Local::now() - Duration::days(1)).timestamp();
    assert!(predicate.matches(yesterday_ts), "should match yesterday's timestamp");
}

#[test]
fn parse_absolute_date_ymd() {
    let predicate = DatePredicate::parse("2024-06-15").expect("parse");
    assert!(predicate.matches(local_noon(2024, 6, 15)), "should match 2024-06-15 noon");
}

#[test]
fn parse_absolute_date_slash_format() {
    let predicate = DatePredicate::parse("2024/06/15").expect("parse");
    assert!(predicate.matches(local_noon(2024, 6, 15)), "should match 2024/06/15");
}

#[test]
fn parse_comparison_greater_than() {
    let predicate = DatePredicate::parse(">2024-01-01").expect("parse");
    assert!(predicate.matches(local_noon(2024, 6, 15)), "2024-06-15 should be after 2024-01-01");
    assert!(!predicate.matches(local_noon(2023, 12, 31)), "2023-12-31 should not match >2024-01-01");
}

#[test]
fn parse_comparison_less_than() {
    let predicate = DatePredicate::parse("<2024-01-01").expect("parse");
    assert!(predicate.matches(local_noon(2023, 12, 15)), "2023-12-15 should be before 2024-01-01");
}

#[test]
fn parse_range() {
    let predicate = DatePredicate::parse("2024-01-01..2024-12-31").expect("parse");
    assert!(predicate.matches(local_noon(2024, 6, 15)), "2024-06-15 should be in range");
    assert!(!predicate.matches(local_noon(2023, 6, 15)), "2023-06-15 should not be in range");
}

#[test]
fn parse_open_ended_range_before() {
    let predicate = DatePredicate::parse("..2024-06-30").expect("parse");
    assert!(predicate.matches(local_noon(2024, 1, 1)), "2024-01-01 should be before 2024-06-30");
}

#[test]
fn parse_open_ended_range_after() {
    let predicate = DatePredicate::parse("2024-06-01..").expect("parse");
    assert!(predicate.matches(local_noon(2024, 12, 31)), "2024-12-31 should be after 2024-06-01");
}

#[test]
fn parse_thisweek_keyword() {
    let predicate = DatePredicate::parse("thisweek").expect("parse");
    assert!(predicate.matches(Local::now().timestamp()), "today should be in thisweek");
}

#[test]
fn parse_thismonth_keyword() {
    let predicate = DatePredicate::parse("thismonth").expect("parse");
    assert!(predicate.matches(Local::now().timestamp()), "today should be in thismonth");
}

#[test]
fn parse_thisyear_keyword() {
    let predicate = DatePredicate::parse("thisyear").expect("parse");
    assert!(predicate.matches(Local::now().timestamp()), "today should be in thisyear");
}

#[test]
fn parse_not_equal() {
    let predicate = DatePredicate::parse("!=2024-06-15").expect("parse");
    assert!(predicate.matches(local_noon(2024, 6, 14)), "2024-06-14 should not equal 2024-06-15");
    assert!(!predicate.matches(local_noon(2024, 6, 15)), "2024-06-15 should equal 2024-06-15");
}

#[test]
fn empty_value_returns_error() {
    let result = DatePredicate::parse("");
    assert!(result.is_err());
}

#[test]
fn invalid_date_returns_error() {
    let result = DatePredicate::parse("notadate");
    assert!(result.is_err());
}

#[test]
fn invalid_range_order_returns_error() {
    let result = DatePredicate::parse("2024-12-31..2024-01-01");
    assert!(result.is_err());
}

#[test]
fn pastweek_includes_recent_days() {
    let predicate = DatePredicate::parse("pastweek").expect("parse");
    let yesterday = Local::now() - Duration::days(1);
    assert!(predicate.matches(yesterday.timestamp()), "yesterday should be in pastweek");
}

#[test]
fn lastday_of_month_calculation() {
    assert_eq!(last_day_of_month(2024, 2), Some(29));
    assert_eq!(last_day_of_month(2023, 2), Some(28));
    assert_eq!(last_day_of_month(2024, 12), Some(31));
    assert_eq!(last_day_of_month(2024, 4), Some(30));
}

#[test]
fn last_day_of_out_of_range_months() {
    assert_eq!(last_day_of_month(2024, 13), None);
    assert_eq!(last_day_of_month(2024, 0), Some(31));
}

#[test]
fn date_query_syntax_reads_forms() {
    assert!(parse_date_query("today").is_some());
    assert!(parse_date_query(">=2024-01-01").is_some());
    assert!(parse_date_query("2024-01-01..").is_some());
    assert!(parse_date_query("").is_none());
    assert!(parse_date_query("2024-13-01").is_none());
}

#[test]
fn range_bounds_are_inclusive_days() {
    let predicate = DatePredicate::parse("2024-03-01..2024-03-31").expect("parse");
    assert!(predicate.matches(local_noon(2024, 3, 1)));
    assert!(predicate.matches(local_noon(2024, 3, 31)));
    assert!(!predicate.matches(local_noon(2024, 4, 1)));
}

#[test]
fn comparison_lte_and_gte() {
    let lte = DatePredicate::parse("<=2024-05-10").expect("parse");
    assert!(lte.matches(local_noon(2024, 5, 10)));
    assert!(!lte.matches(local_noon(2024, 5, 11)));
    let gte = DatePredicate::parse(">=2024-05-10").expect("parse");
    assert!(gte.matches(local_noon(2024, 5, 10)));
    assert!(!gte.matches(local_noon(2024, 5, 9)));
}
