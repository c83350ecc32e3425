use responses_api_proxy::affinity::key_for_http_request;
use responses_api_proxy::affinity::key_for_request;
use responses_api_proxy::affinity::AffinityError;
use responses_api_proxy::header::Header;

fn header(name: &str, value: &str) -> Header {
    Header {
        field: name.to_string(),
        value: value.to_string(),
    }
}

const METADATA: &str = r#"{"session_id":"desktop-task","thread_id":"runtime-segment"}"#;

fn quoted(text: &str) -> String {
    format!("\"{}\"", text.replace('"', "\\\""))
}

#[test]
fn prefers_client_session_id_for_affinity() {
    let body =
        br#"{"client_metadata":{"session_id":"client-session","thread_id":"client-thread"}}"#;
    assert_eq!(
        key_for_request(body),
        Some("session_id:client-session".to_string())
    );
}

#[test]
fn reads_nested_session_id() {
    let body = br#"{"client_metadata":{"x-codex-turn-metadata":"{\"session_id\":\"nested-session\"}"}}"#;
    assert_eq!(
        key_for_request(body),
        Some("session_id:nested-session".to_string())
    );
}

#[test]
fn falls_back_to_top_level_conversation_metadata() {
    let body = br#"{"metadata":{"conversation_id":"conversation-1"}}"#;
    assert_eq!(
        key_for_request(body),
        Some("conversation_id:conversation-1".to_string())
    );
}

#[test]
fn ignores_missing_or_non_string_keys() {
    assert_eq!(key_for_request(br#"{"model":"gpt-5.6"}"#), None);
    assert_eq!(
        key_for_request(br#"{"client_metadata":{"session_id":42}}"#),
        None
    );
}

#[test]
fn sdk_session_header_shares_native_codex_metadata_binding() {
    let expected = Some("session_id:desktop-task".to_string());
    for (body, headers) in [
        (
            "{}".to_string(),
            vec![header("Session_Id", "desktop-task")],
        ),
        (format!("{{\"client_metadata\":{METADATA}}}"), vec![]),
        (format!("{{\"metadata\":{METADATA}}}"), vec![]),
        (
            format!(
                "{{\"client_metadata\":{{\"x-codex-turn-metadata\":{}}}}}",
                quoted(METADATA)
            ),
            vec![],
        ),
        (
            "{}".to_string(),
            vec![header("x-codex-turn-metadata", METADATA)],
        ),
    ] {
        assert_eq!(
            key_for_http_request(body.as_bytes(), &headers).unwrap(),
            expected
        );
    }
}

#[test]
fn explicit_session_survives_thread_rotation_and_request_id_changes() {
    for segment in ["before-compression", "after-compression"] {
        let body = format!("{{\"client_metadata\":{{\"thread_id\":\"{segment}\"}}}}");
        let headers = vec![
            header("session_id", "desktop-task"),
            header("thread_id", segment),
            header("x-client-request-id", segment),
            header("x-codex-queue-request-id", segment),
        ];
        assert_eq!(
            key_for_http_request(body.as_bytes(), &headers).unwrap(),
            Some("session_id:desktop-task".to_string())
        );
    }
}

#[test]
fn conflicting_session_headers_and_metadata_are_rejected() {
    for body in [
        r#"{"client_metadata": {"session_id": "other-task"}}"#,
        r#"{"metadata": {"session_id": "other-task"}}"#,
        r#"{"client_metadata": {"x-codex-turn-metadata": "{\"session_id\":\"other-task\"}"}}"#,
    ] {
        let headers = vec![header("session_id", "desktop-task")];
        assert_eq!(
            key_for_http_request(body.as_bytes(), &headers)
                .unwrap_err()
                .message(),
            "conflicting session_id values"
        );
    }
    let headers = vec![
        header("session_id", "desktop-task"),
        header("x-codex-turn-metadata", "{\"session_id\":\"other-task\"}"),
    ];
    assert_eq!(
        key_for_http_request(b"{}", &headers).unwrap_err().message(),
        "conflicting session_id values"
    );
}

#[test]
fn matching_session_headers_and_metadata_are_accepted() {
    let body = r#"{"client_metadata": {"session_id": "desktop-task"}}"#;
    let headers = vec![
        header("session_id", "desktop-task"),
        header("x-codex-turn-metadata", "{\"session_id\":\"desktop-task\"}"),
    ];
    assert_eq!(
        key_for_http_request(body.as_bytes(), &headers).unwrap(),
        Some("session_id:desktop-task".to_string())
    );
}

#[test]
fn duplicate_case_insensitive_session_headers_are_rejected() {
    let headers = vec![
        header("session_id", "desktop-task"),
        header("Session_Id", "desktop-task"),
    ];
    assert_eq!(
        key_for_http_request(b"{}", &headers).unwrap_err().message(),
        "duplicate session_id header"
    );
}

#[test]
fn header_affinity_matches_body_affinity_without_modifying_input() {
    let metadata = r#"{"session_id":"client-session","thread_id":"client-thread"}"#;
    let from_header =
        key_for_http_request(b"{}", &vec![header("x-codex-turn-metadata", metadata)]).unwrap();
    let body = format!("{{\"client_metadata\":{metadata}}}");
    assert_eq!(
        from_header,
        key_for_http_request(body.as_bytes(), &vec![]).unwrap()
    );
    assert_eq!(from_header, Some("session_id:client-session".into()));
    let direct = header("session_id", "client-session");
    assert_eq!(
        key_for_http_request(b"{}", &vec![direct]).unwrap(),
        from_header
    );
    assert!(key_for_http_request(
        b"{}",
        &vec![
            header("x-codex-turn-metadata", metadata),
            header("x-codex-turn-metadata", metadata)
        ]
    )
    .is_err());
}

#[test]
fn every_fault_of_a_key_is_told_apart() {
    let error = |headers: Vec<Header>| key_for_http_request(b"{}", &headers).unwrap_err();
    assert_eq!(
        error(vec![header("x-codex-turn-metadata", &"x".repeat(8193))]),
        AffinityError::MetadataTooLarge
    );
    assert_eq!(
        error(vec![header("x-codex-turn-metadata", "[]")]).message(),
        "invalid type: sequence, expected a map at line 1 column 0"
    );
    assert_eq!(
        error(vec![header("x-codex-turn-metadata", "{")]).message(),
        "EOF while parsing an object at line 1 column 1"
    );
    assert_eq!(
        error(vec![header(
            "x-codex-turn-metadata",
            r#"{"x-codex-turn-metadata":"{}"}"#
        )]),
        AffinityError::RecursiveMetadata
    );
    assert_eq!(
        error(vec![header("thread_id", "a"), header("Thread_Id", "b")]),
        AffinityError::DuplicateThread
    );
    assert_eq!(
        error(vec![header("session_id", "  ")]),
        AffinityError::InvalidSession
    );
    assert_eq!(
        error(vec![header("thread_id", &"t".repeat(513))]),
        AffinityError::InvalidThread
    );
    assert_eq!(
        error(vec![header("session_id", &"s".repeat(512))]),
        AffinityError::KeyTooLong
    );
}

#[test]
fn nested_metadata_is_followed_down() {
    let inner = r#"{"conversation_id":" deep "}"#;
    let middle = format!("{{\"x-codex-turn-metadata\":{}}}", quoted(inner));
    let escaped = middle.replace('\\', "\\\\").replace('"', "\\\"");
    let body = format!("{{\"metadata\":{{\"x-codex-turn-metadata\":\"{escaped}\"}}}}");
    assert_eq!(
        key_for_request(body.as_bytes()),
        Some("conversation_id:deep".to_string())
    );
    assert_eq!(
        key_for_http_request(b"{}", &vec![header("thread_id", " t ")]).unwrap(),
        Some("thread_id:t".to_string())
    );
}
