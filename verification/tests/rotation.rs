use responses_api_proxy::json::parse_text;
use responses_api_proxy::json::Json;
use responses_api_proxy::rotation::account_loaded;
use responses_api_proxy::rotation::bounded_error;
use responses_api_proxy::rotation::confirm;
use responses_api_proxy::rotation::credentials;
use responses_api_proxy::rotation::gate;
use responses_api_proxy::rotation::order;
use responses_api_proxy::rotation::settle;
use responses_api_proxy::rotation::step;
use responses_api_proxy::rotation::valid_priority;
use responses_api_proxy::rotation::Choice;
use responses_api_proxy::rotation::Confirmation;
use responses_api_proxy::rotation::Gate;
use responses_api_proxy::rotation::Saved;
use responses_api_proxy::rotation::Scan;
use responses_api_proxy::rotation::Settlement;
use responses_api_proxy::rotation::Step;
use responses_api_proxy::rotation::Watch;
use responses_api_proxy::table::Table;

fn j(text: &str) -> Json {
    parse_text(text).unwrap()
}

fn quota(left: &str) -> Json {
    j(&format!(
        r#"{{"fetched_at":100,"limits":[{{"name":"Codex","windows":[{{"remaining_percent":{left}}}]}}]}}"#
    ))
}

fn watch(hard_block: bool, hold: bool) -> Watch {
    Watch {
        traffic: 1,
        hard_block,
        auth_invalid: false,
        hold,
    }
}

#[test]
fn accounts_are_watched_only_while_there_is_something_to_do() {
    let idle = j(r#"{"paused":false,"outcome_unknown":false,"traffic_version":4,"running":0,"pending":0}"#);
    assert!(matches!(gate(true, &idle, true, 4), Gate::Idle));
    assert!(matches!(gate(false, &idle, true, 3), Gate::Idle));
    assert!(matches!(gate(true, &idle, false, 3), Gate::Idle));
    match gate(true, &idle, true, 3) {
        Gate::Check(watch) => assert_eq!((watch.traffic, watch.hard_block), (4, false)),
        other => panic!("{other:?}"),
    }
    let blocked = j(
        r#"{"paused":false,"outcome_unknown":false,"traffic_version":4,"running":0,"pending":0,
        "account_unavailable_reason":"auth_invalid"}"#,
    );
    match gate(true, &blocked, true, 4) {
        Gate::Check(watch) => assert!(watch.hard_block && watch.auth_invalid),
        other => panic!("{other:?}"),
    }
    let unknown = j(r#"{"outcome_unknown":true,"traffic_version":9}"#);
    assert!(matches!(gate(true, &unknown, true, 4), Gate::Idle));
}

#[test]
fn an_account_is_left_when_little_is_left_of_its_quota() {
    assert_eq!(step(watch(false, false), Ok(&quota("50.0"))), Step::Monitor);
    assert_eq!(step(watch(false, false), Ok(&quota("2.0"))), Step::Rotate);
    assert_eq!(step(watch(false, true), Ok(&quota("50.0"))), Step::Resume);
    assert_eq!(step(watch(false, true), Ok(&quota("4.0"))), Step::Rotate);
    assert_eq!(step(watch(true, false), Ok(&quota("50.0"))), Step::Rotate);
    assert_eq!(step(watch(false, false), Err(true)), Step::Rotate);
    assert_eq!(step(watch(false, false), Err(false)), Step::Report);
}

#[test]
fn accounts_are_tried_in_order() {
    let list = |names: &[&str]| names.iter().map(|n| n.to_string()).collect::<Vec<String>>();
    assert_eq!(
        order(&list(&["c", "a"]), &list(&["a", "b", "c"])),
        list(&["c", "a", "b"])
    );
    assert!(valid_priority(&list(&["a", "b-1"])));
    assert!(!valid_priority(&list(&["../x"])));
    assert!(!valid_priority(&vec!["a".to_string(); 65]));
}

#[test]
fn candidates_take_over_only_with_quota_and_are_asked_one_at_a_time() {
    let current = j(r#"{"OPENAI_API_KEY":"current"}"#);
    let other = j(r#"{"OPENAI_API_KEY":"other"}"#);
    let good = j(
        r#"{"next_check_at":5000,"error":null,"quota":{"limits":[{"name":"Codex","windows":[{"remaining_percent":80.0}]}]}}"#,
    );
    let unknown = j(r#"{"next_check_at":0}"#);
    let mut scan = Scan::new(1000, 0);
    assert_eq!(
        scan.consider(&current, &current, "k", None, &good),
        Choice::Skip
    );
    let waited = ("k".to_string(), 2000);
    assert_eq!(
        scan.consider(&other, &current, "k", Some(&waited), &good),
        Choice::Skip
    );
    assert_eq!(
        scan.consider(&other, &current, "changed", Some(&waited), &good),
        Choice::Activate
    );
    assert_eq!(
        scan.consider(&other, &current, "k", None, &j(r#"{"auth_invalid":true}"#)),
        Choice::Skip
    );
    assert_eq!(
        scan.consider(&other, &current, "k", None, &unknown),
        Choice::Query
    );
    assert_eq!(scan.next_scan, 1030);
    assert_eq!(
        scan.consider(&other, &current, "k", None, &unknown),
        Choice::Skip
    );
    let shown = scan.waiting();
    assert!(shown.says("phase", "waiting"));
    assert_eq!(shown.number_at("next_check_at"), Some(1030));
}

#[test]
fn changes_are_recorded_and_failures_waited_out() {
    let mut saved = Saved {
        enabled: true,
        priority: Vec::new(),
        events: Vec::new(),
        backoff: Table::new(),
    };
    saved.record("a", &"b".to_string(), "k".to_string(), 100, Some("broken"));
    assert_eq!(
        saved.backoff.get(&"b".to_string()),
        Some(&("k".to_string(), 1000))
    );
    assert_eq!(
        saved.events[0].to_text(),
        j(r#"{"at":100,"from":"a","to":"b","ok":false,"reason":"额度 ≤2% 或账号不可用","error":"broken"}"#)
            .to_text()
    );
    saved.record("a", &"b".to_string(), "k".to_string(), 200, None);
    assert!(!saved.backoff.has(&"b".to_string()));
    assert!(saved.events[0].is("ok", true) && saved.events[0].lacks("error"));
    for n in 0..60 {
        saved.record("a", &"b".to_string(), "k".to_string(), n, None);
    }
    assert_eq!(saved.events.len(), 50);
    assert!(saved.is_bounded());
    assert_eq!(bounded_error(&"é".repeat(600)).chars().count(), 512);
}

#[test]
fn a_change_is_confirmed_or_taken_back() {
    let disk = j(r#"{"tokens":{"account_id":"a","access_token":"t"}}"#);
    let of = |account: &str, disk: &Json, status: &str| confirm(account, disk, &j(status));
    assert_eq!(
        of("a", &disk, r#"{"authToken":"t"}"#),
        Confirmation::Loaded
    );
    assert_eq!(
        of("a", &disk, r#"{"authToken":"old"}"#),
        Confirmation::Pending
    );
    assert_eq!(
        of("b", &disk, r#"{"authToken":"t"}"#),
        Confirmation::Replaced
    );
    assert_eq!(
        of("a", &j(r#"{"tokens":{"account_id":"a"}}"#), "{}"),
        Confirmation::NoToken
    );
    assert!(account_loaded(&disk, &j(r#"{"accountId":"a"}"#)));
    assert!(!account_loaded(&disk, &j(r#"{"accountId":"b"}"#)));
    assert!(account_loaded(&j(r#"{"OPENAI_API_KEY":"k"}"#), &j("{}")));
    assert!(matches!(settle(true, None), Settlement::Changed));
    assert!(matches!(settle(false, None), Settlement::Discard));
    match settle(false, Some(disk)) {
        Settlement::Restore(before) => {
            assert!(before.get("tokens").unwrap().says("account_id", "a"))
        }
        _ => panic!("not restored"),
    }
}

#[test]
fn refreshed_credentials_in_use_come_before_saved_ones() {
    let saved = j(r#"{"tokens":{"account_id":"a","access_token":"old"}}"#);
    let active = j(r#"{"tokens":{"account_id":"a","access_token":"new"}}"#);
    let other = j(r#"{"tokens":{"account_id":"b","access_token":"x"}}"#);
    assert_eq!(
        credentials(&saved, Some(&active)).to_text(),
        active.to_text()
    );
    assert_eq!(
        credentials(&saved, Some(&other)).to_text(),
        saved.to_text()
    );
    assert_eq!(credentials(&saved, None).to_text(), saved.to_text());
}
