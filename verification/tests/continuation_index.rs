use responses_api_proxy::continuation_index::Index;
use responses_api_proxy::continuation_index::MAX_BYTES;
use responses_api_proxy::continuation_index::MAX_REFERENCES;
use responses_api_proxy::continuation_index::RETENTION;
use responses_api_proxy::json::parse_text;
use responses_api_proxy::json::Json;
use responses_api_proxy::rejection::Rejection;
use responses_api_proxy::scheduler::Key;
use responses_api_proxy::table::Table;

const NOW: u64 = 10_000_000;

fn j(text: &str) -> Json {
    parse_text(text).unwrap()
}

fn key(conversation: &str) -> Key {
    Key("caller-a".to_string(), conversation.to_string())
}

fn observe(index: &mut Index, conversation: &str, event: &str) {
    index.observe("account-a", &key(conversation), &j(event), NOW);
}

fn resolve(index: &Index, body: &str) -> Result<Option<String>, Rejection> {
    index.resolve("caller-a", "account-a", &j(body), NOW)
}

const ITEM: &str = r#"{"type":"function_call", "id":"item-a", "call_id":"call-a", "encrypted_content":"secret-reasoning", "encrypted_function_args":"secret-arguments"}"#;

#[test]
fn observed_references_survive_restart_without_storing_ciphertext() {
    let mut index = Index::new();
    observe(
        &mut index,
        "original",
        r#"{"type":"response.created", "response":{"id":"resp-a"}}"#,
    );
    observe(
        &mut index,
        "original",
        &format!(r#"{{"type":"response.output_item.done", "item":{ITEM}}}"#),
    );
    assert!(index.dirty);
    let index = Index::restore(index.records, 0).unwrap();
    for body in [
        r#"{"previous_response_id":"resp-a"}"#.to_string(),
        r#"{"input":[{"type":"item_reference", "id":"item-a"}]}"#.to_string(),
        r#"{"input":[{"type":"function_call_output", "call_id":"call-a"}]}"#.to_string(),
        r#"{"input":[{"type":"reasoning", "encrypted_content":"secret-reasoning"}]}"#.to_string(),
        r#"{"input":[{"type":"function_call", "encrypted_function_args":"secret-arguments"}]}"#
            .to_string(),
        format!(r#"{{"previous_response_id":"resp-a", "input":[{ITEM}]}}"#),
    ] {
        assert_eq!(resolve(&index, &body), Ok(Some("original".into())));
        assert_eq!(
            index.resolve("caller-b", "account-a", &j(&body), NOW),
            Err(Rejection::BindingLost)
        );
        assert_eq!(
            index.resolve("caller-a", "account-b", &j(&body), NOW),
            Err(Rejection::BindingLost)
        );
    }
    let kept = format!("{:?}", index.records);
    assert!(!kept.contains("secret-") && !kept.contains("call-a") && !kept.contains("resp-a"));
}

#[test]
fn mixed_and_ambiguous_references_are_rejected() {
    let mut index = Index::new();
    observe(&mut index, "first", r#"{"id":"resp-a"}"#);
    observe(&mut index, "second", r#"{"id":"resp-b"}"#);
    observe(&mut index, "first", r#"{"output":[{"id":"item-a"}]}"#);
    assert_eq!(
        resolve(
            &index,
            r#"{"previous_response_id":"resp-b", "input":[{"id":"item-a"}]}"#
        ),
        Err(Rejection::ContinuationConflict)
    );
    observe(&mut index, "second", r#"{"id":"resp-a"}"#);
    index.retain_bindings(&vec![key("second").digest()], NOW);
    assert_eq!(
        resolve(&index, r#"{"previous_response_id":"resp-a"}"#),
        Err(Rejection::ContinuationConflict)
    );
}

#[test]
fn request_data_cannot_create_ownership_and_expired_or_deleted_bindings_are_lost() {
    let mut index = Index::new();
    let plain = r#"{"input":[{"role":"user", "content":"hello", "metadata":{"id":"fake"}}]}"#;
    let previous = r#"{"previous_response_id":"resp-a"}"#;
    assert_eq!(resolve(&index, plain), Ok(None));
    assert_eq!(resolve(&index, previous), Err(Rejection::BindingLost));
    observe(&mut index, "original", r#"{"id":"resp-a"}"#);
    for (_, record) in &mut index.records.entries {
        record.observed_at = NOW - RETENTION;
    }
    assert_eq!(resolve(&index, previous), Err(Rejection::BindingLost));
    index.retain_bindings(&Vec::new(), NOW);
    assert_eq!(index.records.len(), 0);
}

#[test]
fn references_and_stored_bytes_are_bounded() {
    let index = Index::new();
    let input: Vec<String> = (0..=MAX_REFERENCES)
        .map(|id| format!(r#"{{"id":"{id}"}}"#))
        .collect();
    assert_eq!(
        resolve(&index, &format!(r#"{{"input":[{}]}}"#, input.join(","))),
        Err(Rejection::TooLarge)
    );
    assert!(Index::restore(Table::new(), MAX_BYTES + 1).is_none());
    assert!(Index::restore(Table::new(), MAX_BYTES).is_some());
}

#[test]
fn callers_items_make_no_references_and_repeated_ones_count_once() {
    let mut index = Index::new();
    observe(
        &mut index,
        "c",
        r#"{"output":[{"role":"assistant","id":"x"},{"role":"user","id":"y"}]}"#,
    );
    assert_eq!(
        resolve(&index, r#"{"input":[{"id":"x"},{"id":"x"},{"role":"developer","id":"z"}]}"#),
        Ok(Some("c".into()))
    );
    assert_eq!(
        resolve(&index, r#"{"input":[{"id":"y"}]}"#),
        Err(Rejection::BindingLost)
    );
    // What was handed to the conversation again changes nothing.
    index.dirty = false;
    observe(&mut index, "c", r#"{"output":[{"id":"x"}]}"#);
    assert!(!index.dirty);
}
