use responses_api_proxy::accounts;
use responses_api_proxy::json::Json;
use responses_api_proxy::login;
use responses_api_proxy::login::query_param;
use responses_api_proxy::login::CallbackError;
use responses_api_proxy::login::CallbackLogin;
use responses_api_proxy::login::PkceCodes;
use responses_api_proxy::login::ServerOptions;
use responses_api_proxy::login::Session;
use responses_api_proxy::login::SessionError;

fn options() -> ServerOptions {
    ServerOptions {
        issuer: "https://auth.openai.com".to_string(),
        client_id: "test-client".to_string(),
        originator: "codex_cli_rs".to_string(),
        forced_chatgpt_workspace_id: None,
    }
}

fn begin(verifier: &str, state: &str) -> CallbackLogin {
    CallbackLogin::begin(
        &options(),
        PkceCodes::new(verifier.to_string()),
        state.to_string(),
    )
}

fn callback_url(code: &str, state: &str) -> String {
    format!("http://localhost:1455/auth/callback?code={code}&state={state}")
}

fn start(session: &mut Option<Session>, id: u64, profile: &str, state: &str) -> bool {
    login::start(
        session,
        id,
        profile,
        &options(),
        PkceCodes::new("verifier".to_string()),
        state.to_string(),
    )
}

fn text(value: &Json, key: &str) -> String {
    value.text_at(key).unwrap().clone()
}

#[test]
fn authorize_url_carries_pkce_and_state() {
    let login = begin("verifier", "random-state");
    assert!(login
        .authorize_url
        .starts_with("https://auth.openai.com/oauth/authorize?"));
    let query = login.authorize_url().split_once('?').unwrap().1;
    for key in [
        "response_type=code",
        "client_id=test-client",
        "redirect_uri=http%3A%2F%2Flocalhost%3A1455%2Fauth%2Fcallback",
        "code_challenge_method=S256",
    ] {
        assert!(query.contains(key), "missing {key} in {query}");
    }
    let state = query_param(query, "state").unwrap();
    assert_eq!(state, login.state);
    assert_eq!(login.pkce.code_challenge.len(), 43);
}

#[test]
fn complete_rejects_malformed_and_mismatched_callbacks() {
    let login = begin("verifier", "random-state");
    for bad in [
        "http://localhost:1455/auth/callback".to_string(),
        "not-a-url".to_string(),
        callback_url("c", "wrong"),
    ] {
        let message = login.complete(&bad).unwrap_err().message();
        assert!(
            message.contains("state") || message.contains("授权码") || message.contains("查询参数"),
            "unexpected error for {bad}: {message}"
        );
    }
}

#[test]
fn query_param_decodes_values() {
    assert_eq!(
        query_param("a=1&code=x%20y&state=s", "code"),
        Some("x y".to_string())
    );
    assert_eq!(query_param("a=1", "missing"), None);
    assert_eq!(query_param("code=", "code"), Some(String::new()));
}

#[test]
fn status_tracks_the_pending_session_and_start_supersedes_it() {
    let mut session: Option<Session> = None;
    assert_eq!(login::status(&session).to_text(), r#"{"active":false}"#);
    assert!(start(&mut session, 1, "account-a", "state-a"));
    let first = text(&login::status(&session), "url");
    assert!(first.contains("oauth/authorize"));
    assert_eq!(
        login::status(&session).get("active").unwrap().as_flag(),
        Some(true)
    );
    assert_eq!(text(&login::status(&session), "profile"), "account-a");
    assert!(start(&mut session, 2, "account-b", "state-b"));
    let second = text(&login::status(&session), "url");
    assert_ne!(first, second);
    assert_eq!(text(&login::status(&session), "profile"), "account-b");
    session = None;
    assert_eq!(login::status(&session).to_text(), r#"{"active":false}"#);
}

#[test]
fn complete_requires_an_active_matching_session() {
    let mut session: Option<Session> = None;
    let url = "http://localhost:1455/auth/callback?code=x&state=y";
    assert!(login::check_session(&session, "account-a", url).is_some());
    assert!(start(&mut session, 1, "account-a", "state"));
    // A different profile name must not consume someone else's session.
    assert!(login::check_session(&session, "account-b", url).is_some());
    assert_eq!(text(&login::status(&session), "profile"), "account-a");
    assert!(login::check_session(&session, "account-a", "garbage").is_none());
    assert!(session
        .as_ref()
        .unwrap()
        .login
        .complete("garbage")
        .is_err());
}

#[test]
fn a_matching_callback_hands_over_the_code_once_decoded() {
    let login = begin("verifier", "s t");
    let exchange = login
        .complete("http://localhost:1455/auth/callback?code=a%2Fb&state=s%20t")
        .unwrap();
    assert_eq!(exchange.code, "a/b");
    assert_eq!(exchange.redirect_uri, "http://localhost:1455/auth/callback");
    assert_eq!(exchange.code_verifier, "verifier");
    assert_eq!(
        login.complete("x?state=s%20t").unwrap_err(),
        CallbackError::NoCode
    );
    assert_eq!(
        login.complete("x?code=1").unwrap_err(),
        CallbackError::NoState
    );
    assert_eq!(login.complete("x").unwrap_err(), CallbackError::NoQuery);
    assert_eq!(
        login.complete("x?code=1&state=2").unwrap_err(),
        CallbackError::StateMismatch
    );
}

#[test]
fn the_challenge_is_that_of_the_verifier() {
    // The example of RFC 7636, appendix B.
    let codes = PkceCodes::new("dBjftJeZ4CVP-mB92K27uhbUJU1p1r_wW1gFWFOEjXk".to_string());
    assert_eq!(
        codes.code_challenge,
        "E9Melhoa2OwvFrEMTJguCHaoeK1t8URWbuGJSstw-cM"
    );
}

#[test]
fn a_forced_workspace_is_asked_for() {
    let mut opts = options();
    opts.forced_chatgpt_workspace_id = Some("team/1".to_string());
    let login = CallbackLogin::begin(
        &opts,
        PkceCodes::new("verifier".to_string()),
        "state".to_string(),
    );
    assert!(login
        .authorize_url()
        .ends_with("&allowed_workspace_id=team%2F1"));
}

#[test]
fn the_first_value_that_can_be_decoded_counts() {
    assert_eq!(
        query_param("code=%ff&code=two", "code"),
        Some("two".to_string())
    );
    assert_eq!(query_param("code&code=1=2", "code"), Some("1=2".to_string()));
}

#[test]
fn sessions_are_checked_before_they_are_completed() {
    let mut session: Option<Session> = None;
    assert!(!start(&mut session, 1, "not/valid", "state"));
    assert!(session.is_none());
    assert!(matches!(
        login::check_session(&session, "a", ""),
        Some(SessionError::BadUrl)
    ));
    assert!(matches!(
        login::check_session(&session, "a", &"u".repeat(2049)),
        Some(SessionError::BadUrl)
    ));
    assert!(matches!(
        login::check_session(&session, "a", "u"),
        Some(SessionError::NoLogin)
    ));
    assert!(start(&mut session, 7, "mine", "state"));
    match login::check_session(&session, "yours", "u") {
        Some(SessionError::Other(name)) => assert_eq!(name, "mine"),
        other => panic!("{other:?}"),
    }
}

#[test]
fn staging_directories_are_no_accounts() {
    assert_eq!(login::staging_dir(12), ".login-12");
    assert!(login::is_staging(".login-3"));
    assert!(!login::is_staging("login-3"));
    assert!(!accounts::valid_name(&login::staging_dir(12)));
}

#[test]
fn values_are_decoded_leniently_but_only_to_texts() {
    for (value, expected) in [
        ("a%2fb%2F", Some("a/b/")),
        ("100%", Some("100%")),
        ("%4", Some("%4")),
        ("%zz%41", Some("%zzA")),
        ("%4%41", Some("%4A")),
        ("a+b", Some("a+b")),
        ("%E6%97%A5", Some("日")),
        ("%ff", None),
    ] {
        assert_eq!(
            query_param(&format!("k={value}"), "k").as_deref(),
            expected,
            "{value}"
        );
    }
}
