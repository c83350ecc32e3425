use responses_api_proxy::identity::SessionIdentity;
use responses_api_proxy::json::parse_text;
use responses_api_proxy::json::Json;
use responses_api_proxy::rpc::is_fatal;
use responses_api_proxy::rpc::page_request;
use responses_api_proxy::rpc::read_identity;
use responses_api_proxy::rpc::reply;
use responses_api_proxy::rpc::request;
use responses_api_proxy::rpc::request_id;
use responses_api_proxy::rpc::select_pool_identities;
use responses_api_proxy::rpc::started_thread;
use responses_api_proxy::rpc::CommandKind;
use responses_api_proxy::rpc::Identities;
use responses_api_proxy::rpc::PageError;
use responses_api_proxy::rpc::Reply;

fn j(text: &str) -> Json {
    parse_text(text).unwrap()
}

fn identity(thread_id: &str) -> SessionIdentity {
    SessionIdentity {
        installation_id: "install".to_string(),
        session_id: thread_id.to_string(),
        thread_id: thread_id.to_string(),
        window_id: format!("{thread_id}:0"),
        parent_thread_id: None,
        turn_id: None,
        root_turn_id: None,
        parent_turn_id: None,
    }
}

#[test]
fn selects_created_threads_in_creation_order() {
    let selected = select_pool_identities(
        &vec!["thread-b".to_string(), "thread-a".to_string()],
        &vec![
            identity("thread-a"),
            identity("unrelated"),
            identity("thread-b"),
        ],
    )
    .expect("select identities");

    let expected = vec![identity("thread-b"), identity("thread-a")];
    assert_eq!(selected.len(), expected.len());
    assert!(selected
        .iter()
        .zip(&expected)
        .all(|(selected, expected)| selected.equals(expected)));
}

#[test]
fn reads_app_server_camel_case_identity() {
    let identity = read_identity(&j(r#"{
        "threadId": "thread-1",
        "sessionId": "session-1",
        "installationId": "installation-1",
        "windowId": "thread-1:0",
        "parentThreadId": null,
        "turnId": null,
        "rootTurnId": null,
        "parentTurnId": null
    }"#))
    .expect("decode app-server identity");

    assert_eq!(
        (
            identity.thread_id,
            identity.session_id,
            identity.installation_id,
            identity.window_id,
            identity.parent_thread_id,
            identity.turn_id,
            identity.root_turn_id,
            identity.parent_turn_id,
        ),
        (
            "thread-1".to_string(),
            "session-1".to_string(),
            "installation-1".to_string(),
            "thread-1:0".to_string(),
            None,
            None,
            None,
            None,
        )
    );
}

#[test]
fn identity_pages_are_followed_and_cycles_refused() {
    for cycle in [false, true] {
        let mut identities = Identities::new();
        assert_eq!(
            page_request(None).to_text(),
            j(r#"{"cursor":null,"limit":100}"#).to_text()
        );
        let next = identities
            .page(&j(r#"{"data":[],"nextCursor":"page-2"}"#))
            .unwrap();
        assert_eq!(next, Some("page-2".to_string()));
        assert_eq!(
            page_request(next).to_text(),
            j(r#"{"cursor":"page-2","limit":100}"#).to_text()
        );
        if cycle {
            let error = identities
                .page(&j(r#"{"data":[],"nextCursor":"page-2"}"#))
                .unwrap_err();
            assert!(error.message().contains("repeated a cursor"));
        } else {
            let last = identities
                .page(&j(r#"{"data":[],"nextCursor":null}"#))
                .unwrap();
            assert_eq!(last, None);
            assert!(identities.items.is_empty());
        }
    }
    assert_eq!(
        Identities::new().page(&j(r#"{"data":[{}]}"#)).unwrap_err(),
        PageError::Page
    );
}

#[test]
fn replies_are_matched_by_their_identifier() {
    let of = |text: &str| reply(&j(text), "id");
    assert!(matches!(of(r#"{"id":"else","result":1}"#), Reply::Other));
    assert!(matches!(of(r#"{"method":"note"}"#), Reply::Other));
    match of(r#"{"id":"id","result":{"a":1}}"#) {
        Reply::Result(value) => assert_eq!(value.to_text(), r#"{"a":1}"#),
        other => panic!("{other:?}"),
    }
    match of(r#"{"id":"id","error":{"code":-32603,"message":"m"}}"#) {
        Reply::Error(code, message) => assert_eq!((code, message.as_str()), (-32603, "m")),
        other => panic!("{other:?}"),
    }
    assert!(matches!(
        of(r#"{"id":"id","error":{"code":"x"}}"#),
        Reply::BadError
    ));
    assert!(matches!(of(r#"{"id":"id"}"#), Reply::NoResult));
}

#[test]
fn requests_carry_their_identifier() {
    let id = request_id("thread/start", 7, 3);
    assert!(id.contains('7') && id.contains('3'));
    assert_ne!(id, request_id("thread/start", 7, 4));
    let sent = request(&id, "thread/start", j("{}"));
    assert_eq!(sent.text_at("id"), Some(&id));
    assert!(sent.says("method", "thread/start"));
    assert_eq!(
        started_thread(&j(r#"{"thread":{"id":"t"}}"#)),
        Some("t".to_string())
    );
    assert_eq!(started_thread(&j("{}")), None);
    let pool = |threads: &[&str]| {
        let threads = threads.iter().map(|t| t.to_string()).collect();
        select_pool_identities(&threads, &vec![identity("a"), identity("b")])
            .err()
            .unwrap()
    };
    assert_eq!(pool(&["a", "x", "y"]), "x");
    assert_eq!(pool(&["b", "a", "b", "x"]), "b");
}

#[test]
fn failures_that_were_answered_are_not_fatal() {
    assert!(!is_fatal(CommandKind::Acquire, true, true));
    assert!(!is_fatal(CommandKind::Acquire, false, false));
}

#[test]
fn records_may_be_written_as_lists() {
    let read = read_identity(&j(r#"["t","s","i","w",null,"turn",null,null]"#)).unwrap();
    assert_eq!(
        (read.thread_id.as_str(), read.session_id.as_str()),
        ("t", "s")
    );
    assert_eq!(
        (read.installation_id.as_str(), read.window_id.as_str()),
        ("i", "w")
    );
    assert_eq!(read.turn_id.as_deref(), Some("turn"));
    assert!(read_identity(&j(r#"["t","s","i","w"]"#)).is_none());
    let mut identities = Identities::new();
    assert_eq!(identities.page(&j("[[], null]")).unwrap(), None);
    assert_eq!(
        identities
            .page(&j(r#"[[["t","s","i","w",null,null,null,null]],"next"]"#))
            .unwrap(),
        Some("next".to_string())
    );
    assert_eq!(identities.items.len(), 1);
    assert_eq!(identities.page(&j("[[]]")).unwrap_err(), PageError::Page);
    match reply(&j(r#"{"id":"id","error":[-32600,"gone"]}"#), "id") {
        Reply::Error(code, words) => assert_eq!((code, words.as_str()), (-32600, "gone")),
        other => panic!("{other:?}"),
    }
    assert!(matches!(
        reply(&j(r#"{"id":"id","error":[-32600]}"#), "id"),
        Reply::BadError
    ));
}
