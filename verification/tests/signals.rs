use responses_api_proxy::clock::SECOND;
use responses_api_proxy::json::parse_text;
use responses_api_proxy::json::Json;
use responses_api_proxy::signals::Evidence;
use responses_api_proxy::signals::Kind;
use responses_api_proxy::signals::Observation;
use responses_api_proxy::signals::Observer;
use responses_api_proxy::signals::Signals;
use responses_api_proxy::signals::MAX_EVENT;

fn j(text: &str) -> Json {
    parse_text(text).unwrap()
}

#[test]
fn matches_only_new_tool_outputs_against_observed_calls() {
    let now = 1000 * SECOND;
    let initial = j(r#"{"input":[{"role":"user","content":"hello"}]}"#);
    let signals = Signals {
        input: Evidence::read(&initial),
        finished: Some(now),
        output: Observation {
            valid: true,
            response_id: Some("response-1".into()),
            calls: vec!["call-1".into()],
            ..Observation::none()
        },
    };
    let tool = j(
        r#"{"input":[{"role":"user","content":"hello"},{"type":"function_call_output","call_id":"call-1","output":"ok"}]}"#,
    );
    assert_eq!(Evidence::read(&tool).kind(&signals, now), Kind::Tool);
    let unknown =
        j(r#"{"input":[{"type":"function_call_output","call_id":"call-1","output":"old"}]}"#);
    assert_eq!(Evidence::read(&unknown).kind(&signals, now), Kind::Unknown);
    let user = j(
        r#"{"input":[{"role":"user","content":"hello"},{"role":"user","content":"new turn"}]}"#,
    );
    assert_eq!(Evidence::read(&user).kind(&signals, now), Kind::User);
    assert_eq!(
        Evidence::read(&tool).kind(&signals, now + 301 * SECOND),
        Kind::Unknown
    );
}

#[test]
fn observes_arbitrary_sse_chunk_boundaries_and_failed_terminal() {
    let body = b"data: {\"type\":\"response.output_item.done\",\"item\":{\"type\":\"function_call\",\"call_id\":\"call-1\"}}\r\n\r\ndata: {\"type\":\"response.completed\",\"response\":{\"id\":\"resp-1\"}}\r\n\r\n";
    let mut observer = Observer::new(true);
    for byte in body {
        observer.bytes(&[*byte]);
    }
    let result = observer.finish();
    assert_eq!(
        (
            result.valid,
            result.terminal,
            result.successful,
            result.calls,
            result.response_id
        ),
        (
            true,
            true,
            true,
            vec!["call-1".into()],
            Some("resp-1".into())
        )
    );
    let mut observer = Observer::new(true);
    observer.bytes(b"data: {\"type\":\"response.failed\",\"response\":{\"error\":{\"code\":\"rate_limit_exceeded\"}}}\n\n");
    let result = observer.finish();
    assert_eq!(
        (result.terminal, result.successful, result.rate_limited),
        (true, false, true)
    );
}

#[test]
fn oversized_or_truncated_stream_never_grants_continuation_priority() {
    let mut observer = Observer::new(true);
    observer.bytes(&vec![b'x'; MAX_EVENT + 1]);
    observer.bytes(b"\n\ndata: {\"type\":\"response.completed\"}\n\n");
    assert!(!observer.finish().valid);
    let mut observer = Observer::new(true);
    observer.bytes(b"data: {\"type\":\"response.created\"}\n\n");
    assert!(!observer.finish().terminal);
    let mut observer = Observer::new(false);
    observer.bytes(br#"{"error":{"code":"insufficient_quota"}}"#);
    assert!(observer.finish().quota_exhausted);
    let mut observer = Observer::new(true);
    observer.bytes(b"event: response.completed\ndata: ");
    observer.bytes(&vec![b'x'; MAX_EVENT + 1]);
    observer.bytes(b"\n\n");
    let observation = observer.finish();
    assert_eq!((observation.terminal, observation.valid), (true, false));
    let mut observer = Observer::new(true);
    observer.bytes(b"event: response.completed\n\n");
    assert!(!observer.finish().terminal);
}

#[test]
fn every_split_of_a_stream_is_read_alike() {
    let body = b"data: {\"type\":\"response.completed\",\ndata: \"response\":{\"id\":\"r\"}}\n\n";
    for cut in 0..=body.len() {
        let mut observer = Observer::new(true);
        observer.bytes(&body[..cut]);
        observer.bytes(&body[cut..]);
        let seen = observer.finish();
        assert_eq!(
            (seen.valid, seen.terminal, seen.response_id.as_deref()),
            (true, true, Some("r"))
        );
    }
}

#[test]
fn events_are_kept_for_a_recorder_only_where_one_asks() {
    for recording in [false, true] {
        let mut observer = Observer::new(true);
        observer.recording = recording;
        observer.bytes(b"data: {\"id\":\"a\"}\n\ndata: [DONE]\n\n");
        let events: Vec<String> = observer.take_events().iter().map(Json::to_text).collect();
        if recording {
            assert_eq!(events, vec![r#"{"id":"a"}"#]);
        } else {
            assert!(events.is_empty());
        }
        assert!(observer.take_events().is_empty());
    }
}

#[test]
fn a_previous_response_stands_for_a_prefix() {
    let now = 5 * SECOND;
    let signals = Signals {
        input: Evidence::none(),
        finished: Some(now),
        output: Observation {
            valid: true,
            response_id: Some("resp".into()),
            calls: vec!["c".into()],
            ..Observation::none()
        },
    };
    let body = j(
        r#"{"previous_response_id":"resp","input":[{"type":"function_call_output","call_id":"c"}]}"#,
    );
    assert_eq!(Evidence::read(&body).kind(&signals, now), Kind::Tool);
    let other = j(
        r#"{"previous_response_id":"else","input":[{"type":"function_call_output","call_id":"c"}]}"#,
    );
    assert_eq!(Evidence::read(&other).kind(&signals, now), Kind::Unknown);
}

#[test]
fn a_document_that_is_too_large_is_read_alike_in_any_pieces() {
    let seen = |pieces: &[usize]| {
        let mut observer = Observer::new(false);
        for size in pieces {
            observer.bytes(&vec![b'1'; *size]);
        }
        let seen = observer.finish();
        (seen.valid, seen.terminal, seen.calls)
    };
    let whole = seen(&[MAX_EVENT + 10]);
    assert_eq!(whole, (false, false, Vec::new()));
    assert_eq!(seen(&[MAX_EVENT + 1, 9]), whole);
    assert_eq!(seen(&[5, MAX_EVENT + 5]), whole);
}

#[test]
fn calls_are_noted_once_and_not_too_many() {
    let item = |id: &str| format!(r#"{{"type":"function_call","call_id":"{id}"}}"#);
    let observe = |items: Vec<String>| {
        let mut observer = Observer::new(false);
        let list = items.join(",");
        observer.bytes(format!(r#"{{"status":"completed","output":[{list}]}}"#).as_bytes());
        observer.finish()
    };
    let seen = observe(vec![item("a"), item("b"), item("a")]);
    assert_eq!(seen.calls, vec!["a", "b"]);
    assert!(seen.valid && seen.successful && seen.terminal);
    let many = observe((0..65).map(|n| item(&n.to_string())).collect());
    assert!(many.calls.is_empty() && !many.valid);
    assert!(!observe(vec![item("")]).valid);
    assert!(!observe(vec![item(&"x".repeat(513))]).valid);
}
