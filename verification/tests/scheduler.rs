use responses_api_proxy::admission::Cancellation;
use responses_api_proxy::admission::Lease;
use responses_api_proxy::admission::Ticket;
use responses_api_proxy::admission::Turn;
use responses_api_proxy::clock::SECOND;
use responses_api_proxy::digest::digest;
use responses_api_proxy::journal::Journal;
use responses_api_proxy::json::parse_text;
use responses_api_proxy::lifecycle::sign_of;
use responses_api_proxy::lifecycle::Outcome;
use responses_api_proxy::rejection::Rejection;
use responses_api_proxy::scheduler::gap;
use responses_api_proxy::scheduler::Config;
use responses_api_proxy::scheduler::Key;
use responses_api_proxy::scheduler::Pending;
use responses_api_proxy::scheduler::State;
use responses_api_proxy::scheduler::MAX_BODY;
use responses_api_proxy::signals::Evidence;
use responses_api_proxy::signals::Kind;
use responses_api_proxy::signals::Observation;
use responses_api_proxy::table::Table;

const NOW: u128 = 1_000_000 * SECOND;
const WALL: u64 = 1_700_000_000;

fn config(max_running: usize) -> Config {
    Config {
        automatic_recovery: false,
        max_running,
        gap: 0,
        user_gap: 0,
        tool_gap: 0,
        idle_ttl: 900 * SECOND,
        start_gap: 0,
        timeout: 120 * SECOND,
    }
}

fn state(config: &Config) -> State {
    State::restore(config, Journal::new(), NOW, WALL)
}

fn pending(tenant: &str, conversation: &str, id: &str) -> Pending {
    Pending {
        id: id.to_string(),
        key: Key(tenant.to_string(), conversation.to_string()),
        sticky: true,
        fingerprint: format!("body of {id}"),
        evidence: Evidence::none(),
        bytes: 1,
        deadline: NOW + 60 * SECOND,
    }
}

fn enqueue(
    state: &mut State,
    config: &Config,
    tenant: &str,
    conversation: &str,
    id: &str,
) -> Result<Ticket, Rejection> {
    state.enqueue(pending(tenant, conversation, id), NOW, WALL, config)
}

fn lease(state: &mut State, ticket: &Ticket, at: u128, config: &Config) -> Lease {
    match state.poll(ticket, at, config) {
        Turn::Start(lease) => lease,
        other => panic!("{other:?}"),
    }
}

fn waits(state: &mut State, ticket: &Ticket, at: u128, config: &Config) -> bool {
    matches!(state.poll(ticket, at, config), Turn::Wait(_))
}

fn rejected(state: &mut State, ticket: &Ticket, at: u128, config: &Config) -> Rejection {
    match state.poll(ticket, at, config) {
        Turn::Rejected(rejection) => rejection,
        other => panic!("{other:?}"),
    }
}

fn completed() -> Outcome {
    Outcome::Confirmed(Observation {
        valid: true,
        terminal: true,
        successful: true,
        ..Observation::none()
    })
}

/// Starts a request and sends it.
fn sent(state: &mut State, config: &Config, tenant: &str, conversation: &str, id: &str) -> Lease {
    let ticket = enqueue(state, config, tenant, conversation, id).unwrap();
    let lease = lease(state, &ticket, NOW, config);
    state.launch(&lease, NOW, WALL, config).unwrap();
    lease
}

#[test]
fn requests_run_up_to_the_limit_and_free_their_place() {
    let config = config(2);
    let mut state = state(&config);
    let first = sent(&mut state, &config, "a", "1", "r1");
    let _second = sent(&mut state, &config, "a", "2", "r2");
    let third = enqueue(&mut state, &config, "a", "3", "r3").unwrap();
    assert!(waits(&mut state, &third, NOW, &config));
    state.settle(first, completed(), NOW, WALL);
    assert_eq!(lease(&mut state, &third, NOW, &config).key.1, "3");
}

#[test]
fn one_request_is_sent_before_the_next_gets_its_turn() {
    let config = config(2);
    let mut state = state(&config);
    let a = enqueue(&mut state, &config, "a", "1", "r1").unwrap();
    let b = enqueue(&mut state, &config, "b", "1", "r2").unwrap();
    let first = lease(&mut state, &a, NOW, &config);
    assert!(waits(&mut state, &b, NOW, &config));
    state.launch(&first, NOW, WALL, &config).unwrap();
    lease(&mut state, &b, NOW, &config);
}

#[test]
fn tenants_take_turns_and_idle_ones_come_first() {
    let config = config(3);
    let mut state = state(&config);
    let a1 = enqueue(&mut state, &config, "a", "1", "a1").unwrap();
    let a2 = enqueue(&mut state, &config, "a", "2", "a2").unwrap();
    let b1 = enqueue(&mut state, &config, "b", "1", "b1").unwrap();
    let first = lease(&mut state, &a1, NOW, &config);
    state.launch(&first, NOW, WALL, &config).unwrap();
    assert!(waits(&mut state, &a2, NOW, &config));
    let second = lease(&mut state, &b1, NOW, &config);
    state.launch(&second, NOW, WALL, &config).unwrap();
    lease(&mut state, &a2, NOW, &config);
}

#[test]
fn a_conversation_runs_one_request_at_a_time_and_keeps_its_gap() {
    let mut config = config(4);
    let mut state = state(&config);
    config.gap = 5 * SECOND;
    let first = sent(&mut state, &config, "a", "1", "r1");
    let next = enqueue(&mut state, &config, "a", "1", "r2").unwrap();
    assert!(waits(&mut state, &next, NOW, &config));
    state.settle(first, completed(), NOW, WALL);
    match state.poll(&next, NOW, &config) {
        Turn::Wait(wake) => assert_eq!(wake, NOW + 5 * SECOND),
        other => panic!("{other:?}"),
    }
    lease(&mut state, &next, NOW + 5 * SECOND, &config);
}

#[test]
fn a_restart_waits_for_the_longest_gap() {
    let mut config = config(1);
    config.user_gap = 3 * SECOND;
    let mut state = state(&config);
    let ticket = enqueue(&mut state, &config, "a", "1", "r").unwrap();
    match state.poll(&ticket, NOW, &config) {
        Turn::Wait(wake) => assert_eq!(wake, NOW + 3 * SECOND),
        other => panic!("{other:?}"),
    }
    lease(&mut state, &ticket, NOW + 3 * SECOND, &config);
}

#[test]
fn starts_are_spaced() {
    let mut config = config(2);
    let mut state = state(&config);
    config.start_gap = SECOND;
    let _first = sent(&mut state, &config, "a", "1", "r1");
    let ticket = enqueue(&mut state, &config, "b", "1", "r2").unwrap();
    assert!(waits(&mut state, &ticket, NOW, &config));
    lease(&mut state, &ticket, NOW + SECOND, &config);
}

#[test]
fn near_deadlines_come_first_within_a_tenant() {
    let config = config(1);
    let mut state = state(&config);
    let _slow = enqueue(&mut state, &config, "a", "1", "slow").unwrap();
    let mut urgent = pending("a", "2", "urgent");
    urgent.deadline = NOW + SECOND;
    let urgent = state.enqueue(urgent, NOW, WALL, &config).unwrap();
    lease(&mut state, &urgent, NOW, &config);
}

#[test]
fn tool_outputs_come_first_at_most_twice_in_a_row() {
    let config = config(1);
    let mut state = state(&config);
    let mut response = String::from("none");
    let first = sent(&mut state, &config, "a", "tools", "t0");
    let observed = |id: &str| {
        Outcome::Confirmed(Observation {
            valid: true,
            terminal: true,
            successful: true,
            response_id: Some(id.to_string()),
            calls: vec!["call".to_string()],
            ..Observation::none()
        })
    };
    state.settle(first, observed(&response), NOW, WALL);
    // A request in another conversation waits while tools are served.
    let waiting = enqueue(&mut state, &config, "a", "user", "waiting").unwrap();
    for round in 0..3 {
        let mut tool = pending("a", "tools", &format!("t{}", round + 1));
        tool.evidence = Evidence::read(
            &parse_text(&format!(
                r#"{{"previous_response_id":"{response}","input":[{{"type":"function_call_output","call_id":"call"}}]}}"#
            ))
            .unwrap(),
        );
        let ticket = state.enqueue(tool, NOW, WALL, &config).unwrap();
        if round < 2 {
            assert!(waits(&mut state, &waiting, NOW, &config));
            let turn = lease(&mut state, &ticket, NOW, &config);
            state.launch(&turn, NOW, WALL, &config).unwrap();
            response = format!("response-{round}");
            state.settle(turn, observed(&response), NOW, WALL);
        } else {
            assert!(waits(&mut state, &ticket, NOW, &config));
            lease(&mut state, &waiting, NOW, &config);
        }
    }
}

#[test]
fn the_queue_is_bounded() {
    let config = config(1);
    let mut state = state(&config);
    enqueue(&mut state, &config, "a", "1", "r1").unwrap();
    enqueue(&mut state, &config, "a", "1", "r2").unwrap();
    assert_eq!(
        enqueue(&mut state, &config, "a", "1", "r3").unwrap_err(),
        Rejection::Limited
    );
    for n in 0..6 {
        enqueue(&mut state, &config, "a", &format!("c{n}"), &format!("c{n}")).unwrap();
    }
    assert_eq!(
        enqueue(&mut state, &config, "a", "more", "more").unwrap_err(),
        Rejection::Limited
    );
    for n in 0..16 {
        enqueue(&mut state, &config, &format!("t{n}"), "1", "r").unwrap();
    }
    assert_eq!(
        enqueue(&mut state, &config, "last", "1", "r").unwrap_err(),
        Rejection::Full
    );
}

#[test]
fn waiting_bytes_are_bounded() {
    let config = config(1);
    let mut state = state(&config);
    for tenant in ["a", "b"] {
        let mut large = pending(tenant, "1", "r");
        large.bytes = MAX_BODY;
        state.enqueue(large, NOW, WALL, &config).unwrap();
    }
    assert_eq!(
        enqueue(&mut state, &config, "c", "1", "r").unwrap_err(),
        Rejection::Full
    );
}

#[test]
fn bodies_are_taken_within_bounds() {
    let config = config(1);
    let mut state = state(&config);
    assert_eq!(
        state.accept_body(MAX_BODY + 1, &config),
        Err(Rejection::TooLarge)
    );
    for _ in 0..4 {
        assert_eq!(state.accept_body(MAX_BODY, &config), Ok(()));
    }
    assert_eq!(state.accept_body(1, &config), Err(Rejection::Full));
    state.discharge(MAX_BODY);
    for _ in 0..22 {
        assert_eq!(state.accept_body(1, &config), Ok(()));
    }
    assert_eq!(state.accept_body(1, &config), Err(Rejection::Full));
}

#[test]
fn the_same_request_is_taken_only_once() {
    let config = config(1);
    let mut state = state(&config);
    let ticket = enqueue(&mut state, &config, "a", "1", "r").unwrap();
    assert_eq!(
        enqueue(&mut state, &config, "a", "1", "r").unwrap_err(),
        Rejection::Duplicate
    );
    let mut changed = pending("a", "1", "r");
    changed.fingerprint = "another".to_string();
    assert_eq!(
        state.enqueue(changed, NOW, WALL, &config).unwrap_err(),
        Rejection::Conflict
    );
    let turn = lease(&mut state, &ticket, NOW, &config);
    assert_eq!(
        enqueue(&mut state, &config, "a", "1", "r").unwrap_err(),
        Rejection::Duplicate
    );
    state.launch(&turn, NOW, WALL, &config).unwrap();
    assert_eq!(
        state.launch(&turn, NOW, WALL, &config),
        Err(Rejection::Duplicate)
    );
    state.settle(turn, completed(), NOW, WALL);
    assert_eq!(
        enqueue(&mut state, &config, "a", "1", "r").unwrap_err(),
        Rejection::Completed
    );
}

#[test]
fn cancelled_requests_do_not_start() {
    let config = config(1);
    let mut state = state(&config);
    let ticket = enqueue(&mut state, &config, "a", "1", "r").unwrap();
    assert_eq!(
        state.cancel("a".to_string(), "r".to_string(), NOW),
        Ok(Cancellation::Noted)
    );
    assert_eq!(
        rejected(&mut state, &ticket, NOW, &config),
        Rejection::Cancelled
    );
    assert_eq!(
        enqueue(&mut state, &config, "a", "1", "r").unwrap_err(),
        Rejection::Cancelled
    );
    for seconds in [1, 30, 59] {
        let at = NOW + seconds * SECOND;
        assert_eq!(
            state
                .enqueue(pending("a", "1", "r"), at, WALL, &config)
                .unwrap_err(),
            Rejection::Cancelled
        );
    }
    let later = NOW + 60 * SECOND;
    assert!(state
        .enqueue(pending("a", "1", "r"), later, WALL, &config)
        .is_ok());
}

#[test]
fn a_running_request_is_ended_on_demand() {
    let config = config(1);
    let mut state = state(&config);
    let _lease = sent(&mut state, &config, "a", "1", "r");
    assert_eq!(
        state.cancel("a".to_string(), "r".to_string(), NOW),
        Ok(Cancellation::Finalize)
    );
    for n in 0..128 {
        assert_eq!(
            state.cancel("a".to_string(), format!("x{n}"), NOW),
            Ok(Cancellation::Noted)
        );
    }
    assert_eq!(
        state.cancel("a".to_string(), "more".to_string(), NOW),
        Err(Rejection::Full)
    );
}

#[test]
fn an_unknown_outcome_keeps_its_capacity_until_an_operator_recovers() {
    let config = config(1);
    let mut state = state(&config);
    let turn = sent(&mut state, &config, "a", "1", "r");
    state.settle(turn, Outcome::Unknown, NOW, WALL);
    let shown = state.status(NOW, &config);
    assert_eq!(
        (shown.number_at("running"), shown.number_at("quarantined")),
        (Some(1), Some(1))
    );
    assert!(shown.is("outcome_unknown", true) && shown.is("worker_fault", false));
    let ticket = enqueue(&mut state, &config, "a", "2", "r2").unwrap();
    assert_eq!(
        rejected(&mut state, &ticket, NOW, &config),
        Rejection::Unavailable
    );
    state.recover(WALL);
    let ticket = enqueue(&mut state, &config, "a", "2", "r2").unwrap();
    lease(&mut state, &ticket, NOW, &config);
}

#[test]
fn a_checked_request_gives_its_capacity_back_but_is_not_sent_again() {
    let mut config = config(1);
    config.automatic_recovery = true;
    let mut state = state(&config);
    let turn = sent(&mut state, &config, "a", "1", "r");
    let id = turn.id.clone();
    state.settle(turn, Outcome::Unknown, NOW, WALL);
    let ticket = enqueue(&mut state, &config, "a", "1", "next").unwrap();
    state.checked(&id, false, WALL + 10);
    assert!(waits(&mut state, &ticket, NOW, &config));
    state.checked(&id, true, WALL + 30);
    lease(&mut state, &ticket, NOW, &config);
    assert_eq!(
        enqueue(&mut state, &config, "a", "1", "r").unwrap_err(),
        Rejection::OutcomeUnknown
    );
}

#[test]
fn records_without_a_conversation_stop_everything_after_a_restart() {
    let config = config(2);
    let mut journal = Journal::new();
    journal
        .start(&"old".to_string(), "body", None, WALL)
        .unwrap();
    let mut state = State::restore(&config, journal, NOW, WALL);
    assert!(state.status(NOW, &config).is("worker_fault", true));
    assert_eq!(state.resume(), Err(Rejection::Unavailable));
    let ticket = enqueue(&mut state, &config, "a", "1", "r").unwrap();
    assert_eq!(
        rejected(&mut state, &ticket, NOW, &config),
        Rejection::Unavailable
    );
}

#[test]
fn pauses_cooldowns_and_deadlines_turn_requests_away() {
    let config = config(1);
    let mut state = state(&config);
    let ticket = enqueue(&mut state, &config, "a", "1", "r1").unwrap();
    state.pause();
    assert_eq!(
        rejected(&mut state, &ticket, NOW, &config),
        Rejection::Paused
    );
    state.resume().unwrap();
    let ticket = enqueue(&mut state, &config, "a", "1", "r2").unwrap();
    state.throttle.until = Some(NOW + 100 * SECOND);
    assert_eq!(
        rejected(&mut state, &ticket, NOW, &config),
        Rejection::Cooldown(101)
    );
    assert_eq!(
        state.status(NOW, &config).number_at("cooldown_seconds"),
        Some(100)
    );
    state.throttle.until = None;
    let ticket = enqueue(&mut state, &config, "a", "1", "r3").unwrap();
    assert_eq!(
        rejected(&mut state, &ticket, NOW + 60 * SECOND, &config),
        Rejection::Expired
    );
    assert!(state.pending.is_empty() && state.tenants.is_empty());
}

#[test]
fn a_request_that_was_not_sent_can_be_sent_later() {
    let config = config(1);
    let mut state = state(&config);
    let ticket = enqueue(&mut state, &config, "a", "1", "r").unwrap();
    let turn = lease(&mut state, &ticket, NOW, &config);
    state.settle(turn, Outcome::NotSent, NOW, WALL);
    let _again = sent(&mut state, &config, "a", "1", "r");
}

#[test]
fn the_limit_can_be_changed() {
    let config = config(4);
    let mut state = state(&config);
    state.set_limit(2);
    assert_eq!((state.max_running, state.throttle.limit), (2, 2));
    state.throttle.limit = 1;
    state.set_limit(6);
    assert_eq!((state.max_running, state.throttle.limit), (6, 1));
}

#[test]
fn the_status_lists_what_an_operator_needs() {
    let config = config(2);
    let state = state(&config);
    assert_eq!(
        state.status(NOW, &config).to_text(),
        parse_text(
            r#"{"pending":0,"running":0,"max_running":2,"conversations":0,
            "body_bytes_reserved":0,"outcome_unknown":false,"quarantined":0,"worker_fault":false,
            "automatic_recovery":false,"recovery":{"released_unknown":0,"next_check_at":null},
            "effective_max_running":2,"paused":false,"account_unavailable":false,
            "account_unavailable_reason":null,"cooldown_seconds":0}"#
        )
        .unwrap()
        .to_text()
    );
}

#[test]
fn gaps_go_by_what_a_request_is() {
    let mut config = config(1);
    config.gap = 1;
    config.user_gap = 2;
    config.tool_gap = 3;
    assert_eq!(
        [
            gap(Kind::Unknown, &config),
            gap(Kind::User, &config),
            gap(Kind::Tool, &config)
        ],
        [1, 2, 3]
    );
}

#[test]
fn conversations_are_told_apart_by_digests() {
    assert_eq!(
        Key("a".to_string(), "b".to_string()).digest(),
        digest(&[b"a", b"b"])
    );
    assert_ne!(
        Key("ab".to_string(), "".to_string()).digest(),
        Key("a".to_string(), "b".to_string()).digest()
    );
}

#[test]
fn each_rejection_has_a_status_and_a_word() {
    for (rejection, status, word) in [
        (Rejection::Full, 503, "worker_overloaded"),
        (Rejection::Limited, 429, "queue_limit_exceeded"),
        (Rejection::Expired, 503, "queue_deadline_exceeded"),
        (Rejection::Cancelled, 409, "request_cancelled"),
        (Rejection::Duplicate, 409, "request_in_progress"),
        (Rejection::Unavailable, 503, "worker_outcome_unknown"),
        (Rejection::TooLarge, 413, "request_too_large"),
        (Rejection::Conflict, 409, "idempotency_conflict"),
        (Rejection::Completed, 409, "request_already_completed"),
        (Rejection::OutcomeUnknown, 409, "request_outcome_unknown"),
        (Rejection::BindingLost, 409, "conversation_binding_lost"),
        (Rejection::ContinuationConflict, 409, "continuation_conflict"),
        (
            Rejection::IdentityUnavailable,
            503,
            "worker_identity_unavailable",
        ),
        (Rejection::Paused, 503, "worker_unavailable"),
        (Rejection::Cooldown(3), 429, "account_cooldown"),
    ] {
        assert_eq!(rejection.response(), (status, word));
    }
}

#[test]
fn the_account_is_heeded_and_remembered() {
    let config = config(4);
    let mut state = state(&config);
    let seen = Observation {
        rate_limited: true,
        ..Observation::none()
    };
    assert_eq!(sign_of(&seen), Some(429));
    let wall = u128::from(WALL) * SECOND;
    let mut headers = Table::new();
    headers.insert("retry-after".to_string(), "100".to_string());
    state.feedback(429, &headers, NOW, wall, &config);
    assert_eq!(state.throttle.limit, 1);
    assert_eq!(state.throttle.until, Some(NOW + 100 * SECOND));
    assert_eq!(state.journal.cooldown_until, Some(WALL + 101));
    assert_eq!(state.journal.concurrency, 1);
    state.feedback(401, &Table::new(), NOW, wall, &config);
    assert!(state.journal.account_blocked);
    state.account_changed(NOW, WALL, &config);
    assert_eq!((state.throttle.limit, state.throttle.until), (4, None));
    assert_eq!(
        (state.journal.account_blocked, state.journal.cooldown_until),
        (false, None)
    );
}

#[test]
fn ends_of_responses_stand_for_statuses() {
    let of = |quota_exhausted, rate_limited, successful| {
        sign_of(&Observation {
            quota_exhausted,
            rate_limited,
            successful,
            ..Observation::none()
        })
    };
    assert_eq!(of(true, true, false), Some(402));
    assert_eq!(of(false, false, true), Some(200));
    assert_eq!(of(false, false, false), None);
}

#[test]
fn the_queue_is_idle_only_when_nothing_may_run() {
    let config = config(2);
    let mut state = state(&config);
    assert!(state.is_idle());
    let lease = sent(&mut state, &config, "a", "1", "r");
    assert!(!state.is_idle());
    state.settle(lease, Outcome::Unknown, NOW, WALL);
    assert!(!state.is_idle());
    state.recover(WALL);
    assert!(state.is_idle());
    enqueue(&mut state, &config, "a", "2", "r2").unwrap();
    assert!(!state.is_idle());
}
