use responses_api_proxy::continuation::account;
use responses_api_proxy::continuation::AccountError;
use responses_api_proxy::continuation::Continuation;
use responses_api_proxy::digest::digest;
use responses_api_proxy::json::parse_text;
use responses_api_proxy::json::Json;

fn j(text: &str) -> Json {
    parse_text(text).unwrap()
}

#[test]
fn full_history_preserves_tool_pairs_but_dangling_dependencies_require_identity() {
    let call = r#"{"type": "function_call", "call_id": "one", "arguments": "{}"}"#;
    let output = r#"{"type": "function_call_output", "call_id": "one", "output": "original"}"#;
    for (input, expected) in [
        (format!("[{call},{output}]"), Continuation::SelfContained),
        (format!("[{output}]"), Continuation::RequiresIdentity),
        (
            r#"[{"type":"reasoning","encrypted_content":"account-bound"}]"#.to_string(),
            Continuation::RequiresIdentity,
        ),
        (
            r#"[{"type":"function_call","encrypted_function_args":"account-bound"}]"#.to_string(),
            Continuation::RequiresIdentity,
        ),
        (format!("[{output},{call}]"), Continuation::RequiresIdentity),
        (
            r#"[{"type":"item_reference", "id":"opaque"}]"#.to_string(),
            Continuation::RequiresIdentity,
        ),
        (
            r#"[{"role":"user", "content":"hello"}]"#.to_string(),
            Continuation::SelfContained,
        ),
    ] {
        assert_eq!(
            Continuation::from_request(&j(&format!("{{\"input\":{input}}}")), None),
            expected
        );
    }
}

#[test]
fn routing_and_server_side_history_require_a_known_identity() {
    for body in [
        r#"{"previous_response_id":"old"}"#,
        r#"{"conversation":{"id":"old"}}"#,
    ] {
        assert_eq!(
            Continuation::from_request(&j(body), None),
            Continuation::RequiresIdentity
        );
    }
    assert_eq!(
        Continuation::from_request(&j(r#"{"input":"hi"}"#), Some("opaque")),
        Continuation::RequiresIdentity
    );
    assert_eq!(
        Continuation::from_request(&j(r#"{"input":"hi", "previous_response_id":null}"#), None),
        Continuation::SelfContained
    );
}

#[test]
fn an_empty_route_and_other_tools_stand_alone() {
    let body = r#"{"input":[{"type":"custom_tool_call","call_id":"c"},
        {"type":"custom_tool_call_output","call_id":"c"},
        {"type":"reasoning","encrypted_content":null}]}"#;
    assert_eq!(
        Continuation::from_request(&j(body), Some("")),
        Continuation::SelfContained
    );
    let unnamed = r#"{"input":[{"type":"function_call"},{"type":"function_call_output"}]}"#;
    assert_eq!(
        Continuation::from_request(&j(unnamed), None),
        Continuation::RequiresIdentity
    );
}

#[test]
fn accounts_are_told_by_digests() {
    assert_eq!(
        account(br#"{"tokens":{"account_id":"test"},"OPENAI_API_KEY":"x"}"#),
        Ok(digest(&[b"chatgpt", b"test"]))
    );
    assert_eq!(
        account(br#"{"tokens":{"account_id":""},"OPENAI_API_KEY":"fixture"}"#),
        Ok(digest(&[b"api-key", b"fixture"]))
    );
    assert_eq!(account(b"{}"), Err(AccountError::Missing));
    assert_eq!(
        account(b"{").unwrap_err().message(),
        "EOF while parsing an object at line 1 column 1"
    );
    assert_eq!(
        account(&vec![b' '; 1_048_577]),
        Err(AccountError::TooLarge)
    );
}
