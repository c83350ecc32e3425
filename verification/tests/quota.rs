use responses_api_proxy::json::parse_text;
use responses_api_proxy::json::Json;
use responses_api_proxy::quota::due;
use responses_api_proxy::quota::eligible;
use responses_api_proxy::quota::key;
use responses_api_proxy::quota::remaining;
use responses_api_proxy::quota::Cache;
use responses_api_proxy::quota::Failure;
use responses_api_proxy::quota::Freshness;
use responses_api_proxy::quota::Lookup;
use responses_api_proxy::quota::Share;
use responses_api_proxy::quota::MAX_FILE;
use responses_api_proxy::table::Table;

fn j(text: &str) -> Json {
    parse_text(text).unwrap()
}

fn quota(left: f64, at: u64) -> Json {
    j(&format!(
        r#"{{"fetched_at":{at},"limits":[{{"name":"Codex","windows":[{{"seconds":18000,"remaining_percent":{left:?},"reset_at":5000}}]}}]}}"#
    ))
}

fn left(value: &Json) -> Option<f64> {
    remaining(value).map(f64::from_bits)
}

fn get(
    cache: &mut Cache,
    name: &str,
    mode: Freshness,
    now: u64,
    fetch: impl FnOnce() -> Result<Json, Failure>,
) -> Result<Json, Option<Failure>> {
    let name = name.to_string();
    match cache.get(&name, mode, now) {
        Lookup::Cached(value) => Ok(value),
        Lookup::Failed(failure) => Err(Some(failure)),
        Lookup::Fetch => cache.complete(&name, now, fetch()).map_err(Some),
        Lookup::Wait | Lookup::Busy => Err(None),
    }
}

fn failure(message: &str, auth_invalid: bool, retry_after: Option<u64>) -> Failure {
    Failure {
        message: message.to_string(),
        auth_invalid,
        retry_after,
    }
}

fn next_check(cache: &Cache, name: &str, mode: Freshness) -> Option<u64> {
    cache.status(&name.to_string(), mode).number_at("next_check_at")
}

#[test]
fn schedules_active_candidates_and_unknown_windows_without_polling_standby() {
    assert_eq!(
        [
            due(&quota(80.0, 100), Freshness::Active),
            due(&quota(8.0, 100), Freshness::Active),
            due(&quota(4.0, 100), Freshness::Active),
            due(&quota(4.0, 100), Freshness::Candidate),
            due(&quota(2.0, 100), Freshness::Active),
            due(&quota(80.0, 100), Freshness::Manual)
        ],
        [700, 220, 220, 5000, 5000, 130]
    );
    assert!(!eligible(&quota(5.0, 100)));
    assert!(eligible(&quota(6.0, 100)));
    let missing = j(
        r#"{"fetched_at":100,"limits":[{"name":"Codex","windows":[
            {"seconds":18000,"remaining_percent":50.0,"reset_at":5000},{"remaining_percent":null}]}]}"#,
    );
    assert!(!eligible(&missing));
    let missing = j(
        r#"{"fetched_at":100,"limits":[{"name":"Codex","windows":[
            {"seconds":18000,"remaining_percent":50.0,"reset_at":5000},{"remaining_percent":null}]},
            {"name":"Spark","limit_reached":true,"windows":[]}]}"#,
    );
    assert_eq!(left(&missing), Some(50.0));
}

#[test]
fn failures_back_off_and_changed_credentials_escape_invalid_auth_cache() {
    let mut cache = Cache::new();
    assert!(get(&mut cache, "old", Freshness::Active, 100, || Err(failure(
        "invalid", true, None
    )))
    .is_err());
    assert!(
        get(&mut cache, "old", Freshness::Manual, 100000, || panic!(
            "must not poll invalid auth"
        ))
        .is_err()
    );
    assert!(get(&mut cache, "new", Freshness::Active, 100, || Ok(quota(
        80.0, 100
    )))
    .is_ok());
    for (at, next) in [(100, 160), (160, 460), (460, 1360)] {
        assert!(
            get(&mut cache, "network", Freshness::Active, at, || Err(
                failure("network", false, None)
            ))
            .is_err()
        );
        assert_eq!(next_check(&cache, "network", Freshness::Active), Some(next));
        assert!(
            get(&mut cache, "network", Freshness::Manual, next - 1, || {
                panic!("backoff")
            })
            .is_err()
        );
    }
    assert!(get(&mut cache, "limited", Freshness::Manual, 100, || Err(
        failure("429", false, Some(1000))
    ))
    .is_err());
    assert_eq!(next_check(&cache, "limited", Freshness::Manual), Some(1100));
}

#[test]
fn response_observations_are_scoped_to_the_original_credentials() {
    let mut cache = Cache::new();
    for name in ["old", "new"] {
        get(&mut cache, name, Freshness::Manual, 100, || {
            Ok(quota(80.0, 100))
        })
        .unwrap();
    }
    let mut headers = Table::new();
    for (name, value) in [
        ("x-codex-primary-used-percent", "99"),
        ("x-codex-primary-window-minutes", "300"),
        ("x-codex-primary-reset-at", "5000"),
    ] {
        headers.insert(name.to_string(), value.to_string());
    }
    let share = Share {
        used: j("99.0"),
        remaining: j("1.0"),
    };
    cache.observe(&"old".to_string(), &headers, Some(share), None, 101);
    let of = |name: &str| {
        let status = cache.status(&name.to_string(), Freshness::Active);
        left(status.get("quota").unwrap())
    };
    assert_eq!((of("old"), of("new")), (Some(1.0), Some(80.0)));
}

#[test]
fn one_asks_and_the_others_wait_and_the_answer_outlasts_a_restart() {
    let mut cache = Cache::new();
    let name = "fingerprint".to_string();
    assert!(matches!(
        cache.get(&name, Freshness::Manual, 100),
        Lookup::Fetch
    ));
    for _ in 0..3 {
        assert!(matches!(
            cache.get(&name, Freshness::Manual, 100),
            Lookup::Wait
        ));
    }
    cache.complete(&name, 100, Ok(quota(80.0, 100))).unwrap();
    let value = get(&mut cache, "fingerprint", Freshness::Manual, 100, || {
        panic!("cached")
    })
    .unwrap();
    assert_eq!(
        value.get("limits").unwrap().to_text(),
        quota(80.0, 100).get("limits").unwrap().to_text()
    );
    let mut cache = Cache::restore(cache.records, 10).unwrap();
    let value = get(&mut cache, "fingerprint", Freshness::Active, 200, || {
        panic!("kept")
    })
    .unwrap();
    assert!(value.is("cached", true));
    assert!(Cache::restore(cache.records, MAX_FILE + 1).is_none());
}

#[test]
fn only_a_few_ask_at_once() {
    let mut cache = Cache::new();
    for name in ["a", "b", "c", "d"] {
        assert!(matches!(
            cache.get(&name.to_string(), Freshness::Manual, 1),
            Lookup::Fetch
        ));
    }
    assert!(matches!(
        cache.get(&"e".to_string(), Freshness::Manual, 1),
        Lookup::Busy
    ));
}

#[test]
fn keys_tell_credentials_apart_without_showing_them() {
    let one = key(&j(
        r#"{"tokens":{"account_id":"account-one","access_token":"token-one"}}"#,
    ));
    let two = key(&j(
        r#"{"tokens":{"account_id":"account-one","access_token":"token-two"}}"#,
    ));
    assert_ne!(one, two);
    assert_eq!(one.len(), 64);
    assert!(!one.contains("token"));
}

#[test]
fn places_that_are_missing_are_made() {
    let mut headers = Table::new();
    headers.insert("x-codex-primary-window-minutes".to_string(), "300".to_string());
    let observed = |stored: &str| {
        let mut cache = Cache::new();
        get(&mut cache, "k", Freshness::Manual, 100, || Ok(j(stored))).unwrap();
        let share = Share {
            used: j("99.0"),
            remaining: j("1.0"),
        };
        cache.observe(&"k".to_string(), &headers, Some(share), None, 101);
        let status = cache.status(&"k".to_string(), Freshness::Active);
        status.get("quota").unwrap().to_text()
    };
    assert_eq!(observed("{}"), r#"{"cached":false,"limits":null}"#);
    assert_eq!(
        observed(r#"{"limits":[{"name":"Codex"}]}"#),
        r#"{"cached":false,"limits":[{"name":"Codex","windows":null}]}"#
    );
    let mut cache = Cache::new();
    get(&mut cache, "k", Freshness::Manual, 100, || Ok(j("{}"))).unwrap();
    cache.block("k".to_string(), false, 101);
    let status = cache.status(&"k".to_string(), Freshness::Active);
    assert_eq!(
        status.get("quota").unwrap().to_text(),
        r#"{"cached":false,"limits":null}"#
    );
}

#[test]
fn a_share_never_rises_until_the_same_reset() {
    let mut cache = Cache::new();
    get(&mut cache, "k", Freshness::Manual, 100, || Ok(quota(20.0, 100))).unwrap();
    let mut observe = |used: &str, remaining: &str, reset: &str| {
        let mut headers = Table::new();
        headers.insert("x-codex-primary-window-minutes".to_string(), "300".to_string());
        headers.insert("x-codex-primary-reset-at".to_string(), reset.to_string());
        let share = Share {
            used: j(used),
            remaining: j(remaining),
        };
        cache.observe(&"k".to_string(), &headers, Some(share), None, 101);
        let status = cache.status(&"k".to_string(), Freshness::Active);
        left(status.get("quota").unwrap())
    };
    assert_eq!(observe("50.0", "50.0", "5000"), Some(20.0));
    assert_eq!(observe("90.0", "10.0", "5000"), Some(10.0));
    assert_eq!(observe("0.0", "100.0", "9000"), Some(100.0));
}

#[test]
fn two_readings_of_one_window_with_the_known_reset_do_not_raise_its_share() {
    let mut cache = Cache::new();
    get(&mut cache, "k", Freshness::Manual, 100, || Ok(quota(20.0, 100))).unwrap();
    let mut headers = Table::new();
    for slot in ["primary", "secondary"] {
        headers.insert(format!("x-codex-{slot}-window-minutes"), "300".to_string());
        headers.insert(format!("x-codex-{slot}-reset-at"), "5000".to_string());
    }
    let share = |used: &str, remaining: &str| {
        Some(Share {
            used: j(used),
            remaining: j(remaining),
        })
    };
    cache.observe(
        &"k".to_string(),
        &headers,
        share("90.0", "10.0"),
        share("85.0", "15.0"),
        101,
    );
    let status = cache.status(&"k".to_string(), Freshness::Active);
    assert_eq!(left(status.get("quota").unwrap()), Some(10.0));
}
