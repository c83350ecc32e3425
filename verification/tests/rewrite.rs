use responses_api_proxy::identity::SessionIdentity;
use responses_api_proxy::json::parse_json;
use responses_api_proxy::json::parse_text;
use responses_api_proxy::rewrite::rewrite_body;
use responses_api_proxy::rewrite::rewrite_header;
use responses_api_proxy::rewrite::RewriteError;

fn identity() -> SessionIdentity {
    SessionIdentity {
        installation_id: "install-a".to_string(),
        session_id: "session-a".to_string(),
        thread_id: "thread-a".to_string(),
        window_id: "window-a".to_string(),
        parent_thread_id: None,
        turn_id: Some("turn-a".to_string()),
        root_turn_id: Some("root-a".to_string()),
        parent_turn_id: Some("parent-a".to_string()),
    }
}

#[test]
fn rewrites_only_existing_body_fields() {
    let original = r#"{
        "model": "gpt-5",
        "input": [{"type": "message", "role": "user"}],
        "client_metadata": {
            "session_id": "old-session",
            "x-codex-turn-metadata": "{\"thread_id\":\"old-thread\",\"workspaces\":{\"/repo\":{\"has_changes\":true}}}"
        }
    }"#;
    let rewritten = rewrite_body(original.as_bytes(), &identity()).unwrap();
    let actual = parse_json(&rewritten).unwrap();
    let metadata = actual.get("client_metadata").unwrap();
    assert_eq!(metadata.text_at("session_id").unwrap(), "session-a");
    let nested = parse_text(metadata.text_at("x-codex-turn-metadata").unwrap()).unwrap();
    assert_eq!(nested.text_at("thread_id").unwrap(), "thread-a");
    assert!(nested.get("installation_id").is_none());
    assert!(nested
        .get("workspaces")
        .unwrap()
        .get("/repo")
        .unwrap()
        .is_object());
}

#[test]
fn does_not_create_client_metadata_or_identity_fields() {
    let original = br#"{"model":"gpt-5","input":[]}"#;
    let rewritten = rewrite_body(original, &identity()).unwrap();
    let actual = parse_json(&rewritten).unwrap();
    let expected = parse_json(original).unwrap();
    assert_eq!(actual.to_text(), expected.to_text());
}

#[test]
fn rewrites_header_in_place() {
    let value = r#"{"session_id":"old","workspaces":{"/repo":{}}}"#;
    let rewritten = rewrite_header("X-Codex-Turn-Metadata", value, &identity()).unwrap();
    let actual = parse_text(&rewritten).unwrap();
    assert_eq!(actual.text_at("session_id").unwrap(), "session-a");
    assert!(actual.get("installation_id").is_none());
    assert!(actual
        .get("workspaces")
        .unwrap()
        .get("/repo")
        .unwrap()
        .is_object());
}

#[test]
fn every_identity_field_has_its_value() {
    for (name, expected) in [
        ("installation_id", "install-a"),
        ("x-codex-installation-id", "install-a"),
        ("session_id", "session-a"),
        ("thread_id", "thread-a"),
        ("turn_id", "turn-a"),
        ("window_id", "window-a"),
        ("x-codex-window-id", "window-a"),
        ("context_window_id", "window-a"),
        ("root_turn_id", "root-a"),
        ("parent_turn_id", "parent-a"),
        ("x-other", "old"),
    ] {
        assert_eq!(rewrite_header(name, "old", &identity()).unwrap(), expected);
    }
    let mut without = identity();
    without.turn_id = None;
    assert_eq!(rewrite_header("turn_id", "old", &without).unwrap(), "old");
}

#[test]
fn rewriting_twice_changes_nothing_more() {
    let once = rewrite_body(
        br#"{"client_metadata":{"session_id":"x","other":[1]}}"#,
        &identity(),
    )
    .unwrap();
    assert_eq!(
        String::from_utf8(once.clone()).unwrap(),
        r#"{"client_metadata":{"other":[1],"session_id":"session-a"}}"#
    );
    assert_eq!(rewrite_body(&once, &identity()).unwrap(), once);
}

#[test]
fn each_fault_is_told_apart() {
    for (body, expected) in [
        (
            "{",
            RewriteError::Malformed("EOF while parsing an object at line 1 column 1".to_string()),
        ),
        (r#"{"client_metadata":[]}"#, RewriteError::MetadataShape),
        (
            r#"{"client_metadata":{"x-codex-turn-metadata":{}}}"#,
            RewriteError::NestedType,
        ),
        (
            r#"{"client_metadata":{"x-codex-turn-metadata":"{"}}"#,
            RewriteError::NestedMalformed(
                "EOF while parsing an object at line 1 column 1".to_string(),
            ),
        ),
        (
            r#"{"client_metadata":{"x-codex-turn-metadata":"[]"}}"#,
            RewriteError::NestedShape,
        ),
    ] {
        assert_eq!(
            rewrite_body(body.as_bytes(), &identity()).unwrap_err(),
            expected
        );
    }
    assert_eq!(
        RewriteError::<String>::NestedShape.message(),
        "x-codex-turn-metadata must be a JSON object"
    );
    assert_eq!(
        rewrite_header("X-Codex-Turn-Metadata", "{", &identity())
            .unwrap_err()
            .message(),
        "invalid x-codex-turn-metadata JSON: EOF while parsing an object at line 1 column 1"
    );
}
