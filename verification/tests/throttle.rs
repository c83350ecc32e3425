use responses_api_proxy::clock::SECOND;
use responses_api_proxy::table::Table;
use responses_api_proxy::throttle::retry_after;
use responses_api_proxy::throttle::BlockedReason;
use responses_api_proxy::throttle::Throttle;
use std::time::Duration;
use std::time::SystemTime;

fn headers(pairs: &[(&str, &str)]) -> Table<String, String> {
    let mut table = Table::new();
    for (name, value) in pairs {
        table.insert(name.to_string(), value.to_string());
    }
    table
}

#[test]
fn cooldown_respects_long_hints_and_successes_cannot_erase_it() {
    let now = 1000 * SECOND;
    let wall = 1_700_000_000 * SECOND;
    let mut throttle = Throttle::with_limit(4);
    throttle.observe(429, &headers(&[("retry-after", "3600")]), now, wall, 4);
    assert!(throttle.until.unwrap() >= now + 3600 * SECOND);
    let until = throttle.until;
    for _ in 0..30 {
        throttle.observe(200, &headers(&[]), now + 60 * SECOND, wall, 4);
    }
    assert_eq!((throttle.until, throttle.limit), (until, 1));
    for _ in 0..19 {
        throttle.observe(200, &headers(&[]), now + 3601 * SECOND, wall, 4);
    }
    throttle.observe(200, &headers(&[]), now + 3662 * SECOND, wall, 4);
    assert_eq!(throttle.limit, 2);
}

#[test]
fn dates_invalid_hints_and_auth_failures_have_distinct_behavior() {
    let time = SystemTime::UNIX_EPOCH + Duration::from_secs(1_000_000);
    let wall = 1_000_000 * SECOND;
    assert_eq!(
        retry_after(
            &httpdate::fmt_http_date(time + Duration::from_secs(90)),
            wall
        ),
        Some(90 * SECOND)
    );
    assert_eq!(retry_after("-10", wall), None);
    let mut throttle = Throttle::with_limit(2);
    let now = 1000 * SECOND;
    throttle.observe(403, &headers(&[]), now, wall, 2);
    assert!(!throttle.blocked);
    throttle.observe(429, &headers(&[]), now, wall, 2);
    assert!(throttle.until.unwrap() >= now + 5 * SECOND);
    throttle.observe(401, &headers(&[]), now, wall, 2);
    assert!(throttle.blocked);
}

#[test]
fn dates_in_the_past_give_an_empty_delay_and_other_words_none() {
    let wall = 1_000_000 * SECOND;
    assert_eq!(
        retry_after("Thu, 01 Jan 1970 00:00:00 GMT", wall),
        Some(0)
    );
    assert_eq!(retry_after(" 7 ", wall), Some(7 * SECOND));
    assert_eq!(retry_after("soon", wall), None);
    assert_eq!(retry_after("0", wall), Some(0));
}

#[test]
fn reasons_have_names() {
    assert_eq!(BlockedReason::QuotaExhausted.text(), "quota_exhausted");
    assert_eq!(BlockedReason::AuthInvalid.text(), "auth_invalid");
}
