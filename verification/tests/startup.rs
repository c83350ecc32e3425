use responses_api_proxy::clock::MILLISECOND;
use responses_api_proxy::clock::SECOND;
use responses_api_proxy::continuation::Continuation;
use responses_api_proxy::continuation_index::Index;
use responses_api_proxy::conversations::Failure;
use responses_api_proxy::forward::answer_headers;
use responses_api_proxy::forward::capture_name;
use responses_api_proxy::forward::check_account;
use responses_api_proxy::forward::check_body;
use responses_api_proxy::forward::continuation_for;
use responses_api_proxy::forward::fallback_id;
use responses_api_proxy::forward::identity_rejection;
use responses_api_proxy::forward::invalid_request;
use responses_api_proxy::forward::match_continuation;
use responses_api_proxy::header::Header;
use responses_api_proxy::json::parse_text;
use responses_api_proxy::json::Json;
use responses_api_proxy::queue_http::Method;
use responses_api_proxy::rejection::Rejection;
use responses_api_proxy::scheduler::Key;
use responses_api_proxy::scheduler::Pending;
use responses_api_proxy::signals::Evidence;
use responses_api_proxy::startup::check_secret;
use responses_api_proxy::startup::check_sessions;
use responses_api_proxy::startup::configure;
use responses_api_proxy::startup::configured_account_label;
use responses_api_proxy::startup::entry;
use responses_api_proxy::startup::inbound;
use responses_api_proxy::startup::resolve_session_pool_size;
use responses_api_proxy::startup::server_info;
use responses_api_proxy::startup::Entry;
use responses_api_proxy::startup::Inbound;
use responses_api_proxy::startup::StartupError;
use responses_api_proxy::table::Table;

fn j(text: &str) -> Json {
    parse_text(text).unwrap()
}

#[test]
fn the_pool_has_a_size_from_somewhere() {
    assert_eq!(resolve_session_pool_size(Some(3), Some("x"), 5), Ok(3));
    assert_eq!(resolve_session_pool_size(None, Some(" 7 "), 5), Ok(7));
    assert_eq!(resolve_session_pool_size(None, None, 5), Ok(5));
    assert_eq!(
        resolve_session_pool_size(None, Some(" many "), 5)
            .unwrap_err()
            .message(),
        "invalid CODEX_SESSION_POOL_SIZE:  many "
    );
    assert_eq!(
        resolve_session_pool_size(Some(0), None, 5),
        Err(StartupError::PoolSizeZero)
    );
}

#[test]
fn a_queue_needs_sessions_and_a_secret() {
    assert_eq!(check_sessions(32, 2), None);
    assert_eq!(check_sessions(257, 2), Some(StartupError::TooManySessions));
    assert_eq!(check_sessions(1, 2), Some(StartupError::TooFewSessions));
    assert_eq!(check_secret(Some("secret")), None);
    assert_eq!(check_secret(Some("")), Some(StartupError::NoSecret));
    assert_eq!(check_secret(None), Some(StartupError::NoSecret));
}

#[test]
fn settings_are_given_in_milliseconds_and_seconds() {
    let config = configure(true, 2, 800, 1500, 300, 250, 900);
    assert!(config.automatic_recovery);
    assert_eq!(
        (
            config.max_running,
            config.gap,
            config.user_gap,
            config.tool_gap,
            config.start_gap,
            config.idle_ttl,
            config.timeout
        ),
        (
            2,
            800 * MILLISECOND,
            1500 * MILLISECOND,
            300 * MILLISECOND,
            250 * MILLISECOND,
            900 * SECOND,
            120 * SECOND
        )
    );
}

#[test]
fn the_configured_account_is_masked() {
    assert_eq!(
        configured_account_label(Some(r#"{"tokens":{"account_id":"abcdefgh"}}"#)),
        "account-***efgh"
    );
    for unknown in [
        None,
        Some("{"),
        Some("{}"),
        Some(r#"{"tokens":{"account_id":""}}"#),
    ] {
        assert_eq!(configured_account_label(unknown), "configured account");
    }
}

#[test]
fn nothing_is_served_without_the_secret() {
    let of = |method, url: &str, authorized, available| inbound(method, url, authorized, available);
    assert_eq!(of(Method::Get, "/healthz", false, false), Inbound::Health);
    assert_eq!(
        of(Method::Get, "/admin/accounts", false, true),
        Inbound::AdminPage
    );
    assert_eq!(
        of(Method::Post, "/v1/responses", false, true),
        Inbound::Unauthorized
    );
    assert_eq!(
        of(Method::Get, "/readyz", true, false),
        Inbound::IdentityUnavailable
    );
    assert_eq!(of(Method::Get, "/readyz", true, true), Inbound::Control);
    assert_eq!(
        of(Method::Post, "/admin/api/add", true, true),
        Inbound::AdminCommand
    );
    assert_eq!(
        of(Method::Post, "/v1/responses", true, true),
        Inbound::Control
    );
}

#[test]
fn requests_enter_by_method_and_path() {
    let of = |method, url: &str, authorized, shutdown| entry(method, url, authorized, shutdown);
    assert_eq!(of(Method::Get, "/healthz?x", false, false), Entry::Health);
    assert_eq!(of(Method::Get, "/shutdown", true, true), Entry::Shutdown);
    assert_eq!(
        of(Method::Get, "/shutdown", false, true),
        Entry::Unauthorized
    );
    assert_eq!(of(Method::Get, "/shutdown", true, false), Entry::Forbidden);
    assert_eq!(of(Method::Get, "/v1/models", true, false), Entry::Models);
    assert_eq!(of(Method::Get, "/v1/models/x", true, false), Entry::Models);
    assert_eq!(
        of(Method::Post, "/v1/responses?x", true, false),
        Entry::Forward
    );
    assert_eq!(
        of(Method::Get, "/v1/responses", true, false),
        Entry::Forbidden
    );
    assert_eq!(
        of(Method::Post, "/v1/responses", false, false),
        Entry::Unauthorized
    );
}

#[test]
fn the_server_tells_its_port() {
    assert_eq!(server_info(8080, 42).to_text(), r#"{"pid":42,"port":8080}"#);
}

fn pending(sticky: bool) -> Pending {
    Pending {
        id: "id".to_string(),
        key: Key("caller".to_string(), "own".to_string()),
        sticky,
        fingerprint: String::new(),
        evidence: Evidence::none(),
        bytes: 0,
        deadline: 0,
    }
}

#[test]
fn an_observed_continuation_goes_to_its_conversation() {
    let mut index = Index::new();
    index.observe(
        "account",
        &Key("caller".to_string(), "known".to_string()),
        &j(r#"{"id":"resp"}"#),
        100,
    );
    let body = j(r#"{"previous_response_id":"resp"}"#);
    let mut request = pending(false);
    assert_eq!(
        match_continuation(&mut request, Some(&index), "account", &body, 100),
        Ok(true)
    );
    assert_eq!((request.key.1.as_str(), request.sticky), ("known", true));
    // A conversation that was named is kept.
    let mut named = pending(true);
    assert_eq!(
        match_continuation(&mut named, Some(&index), "account", &body, 100),
        Ok(false)
    );
    assert_eq!(named.key.1, "own");
    let mut fresh = pending(false);
    assert_eq!(
        match_continuation(&mut fresh, Some(&index), "account", &j("{}"), 100),
        Ok(false)
    );
    assert_eq!((fresh.key.1.as_str(), fresh.sticky), ("own", true));
    let mut lost = pending(false);
    assert_eq!(
        match_continuation(
            &mut lost,
            Some(&index),
            "account",
            &j(r#"{"previous_response_id":"else"}"#),
            100
        ),
        Err(Rejection::BindingLost)
    );
    let mut direct = pending(false);
    assert_eq!(
        match_continuation(&mut direct, None, "account", &body, 100),
        Ok(false)
    );
    assert!(!direct.sticky);
}

#[test]
fn continuations_need_an_identity_where_they_were_matched() {
    let body = j(r#"{"input":"hi"}"#);
    assert_eq!(
        continuation_for(true, &body, &Vec::new()),
        Continuation::RequiresIdentity
    );
    assert_eq!(
        continuation_for(false, &body, &Vec::new()),
        Continuation::SelfContained
    );
    let routed = vec![Header {
        field: "X-Codex-Turn-State".to_string(),
        value: "state".to_string(),
    }];
    assert_eq!(
        continuation_for(false, &body, &routed),
        Continuation::RequiresIdentity
    );
}

#[test]
fn answers_have_a_type_and_pass_routing_on() {
    let shown = |status: u16, pairs: &[(&str, &str)]| {
        let mut table = Table::new();
        for (name, value) in pairs {
            table.insert(name.to_string(), value.to_string());
        }
        answer_headers(status, &table)
            .into_iter()
            .map(|header| format!("{}: {}", header.field, header.value))
            .collect::<Vec<String>>()
    };
    assert_eq!(shown(200, &[]), vec!["content-type: text/event-stream"]);
    assert_eq!(shown(400, &[]), vec!["content-type: application/json"]);
    assert_eq!(
        shown(
            429,
            &[
                ("content-type", "text/plain"),
                ("retry-after", "3"),
                ("x-codex-turn-state", "s"),
                ("x-other", "y")
            ]
        ),
        vec![
            "content-type: text/plain",
            "x-codex-turn-state: s",
            "retry-after: 3"
        ]
    );
}

#[test]
fn small_things_are_named() {
    assert_eq!(fallback_id(1, 2, 3), "1-2-3");
    assert_eq!(capture_name("thread-1"), Some("thread-1.json".to_string()));
    assert_eq!(capture_name("../x"), None);
    assert_eq!(capture_name(&"x".repeat(65)), None);
    assert_eq!(
        identity_rejection(Failure::BindingLost),
        Rejection::BindingLost
    );
    assert_eq!(
        identity_rejection(Failure::Outside),
        Rejection::IdentityUnavailable
    );
    assert_eq!(
        invalid_request("wrong".to_string()).to_text(),
        r#"{"error":{"message":"wrong","type":"invalid_request_error"}}"#
    );
}

#[test]
fn bodies_and_accounts_are_checked_on_the_way() {
    assert_eq!(check_body(10, 10), None);
    assert_eq!(check_body(11, 10), Some(Rejection::TooLarge));
    assert_eq!(check_account(true, "a", "a"), None);
    assert_eq!(check_account(true, "a", "b"), Some(Rejection::BindingLost));
    assert_eq!(check_account(false, "a", "b"), None);
}
