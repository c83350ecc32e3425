use responses_api_proxy::json::parse_text;
use responses_api_proxy::json::Json;
use responses_api_proxy::raw_response::read_event;
use responses_api_proxy::raw_response::BodyError;
use responses_api_proxy::raw_response::Ending;
use responses_api_proxy::raw_response::Event;
use responses_api_proxy::raw_response::RawResponseStreamEvent;
use responses_api_proxy::raw_response::RawResponseStreamNotification;
use responses_api_proxy::raw_response::Relay;
use responses_api_proxy::raw_response::Relayed;
use responses_api_proxy::raw_response::RequestId;
use responses_api_proxy::raw_response::StreamBody;
use responses_api_proxy::table::Table;

fn j(text: &str) -> Json {
    parse_text(text).unwrap()
}

fn chunk(data: &[u8]) -> Event {
    Event::Stream(RawResponseStreamEvent::Chunk {
        data: data.to_vec(),
    })
}

#[test]
fn stream_body_preserves_exact_chunk_order_and_bytes() {
    let mut events = vec![
        chunk(&[0, 1, b'\n']),
        chunk(&[0xff, b'\r']),
        Event::Completed,
    ]
    .into_iter();
    let mut body = StreamBody::new();
    let mut bytes = Vec::new();
    loop {
        match body.read(2) {
            Some(part) if part.is_empty() => break,
            Some(part) => bytes.extend(part),
            None => body.accept(events.next().unwrap()).unwrap(),
        }
    }
    assert_eq!(bytes, vec![0, 1, b'\n', 0xff, b'\r']);
}

#[test]
fn headers_come_only_once() {
    let mut body = StreamBody::new();
    let started = Event::Stream(RawResponseStreamEvent::Started {
        status: 200,
        headers: Table::new(),
    });
    assert_eq!(body.accept(started).unwrap_err(), BodyError::DuplicateHeaders);
}

/// Runs a response through a relay, in parts of 17 bytes.
fn relayed(payload: &[u8], reply: &str) -> (bool, Ending) {
    let mut relay = Relay::new("id".to_string(), &j(r#"{"rawResponses":{"stream":true}}"#));
    let started = relay.message(&j(
        r#"{"method":"rawResponse/stream","params":{"requestId":"id",
            "event":{"type":"started","status":200,"headers":{"content-type":"text/event-stream"}}}}"#,
    ));
    assert!(matches!(
        started,
        Relayed::Part(RawResponseStreamEvent::Started { status: 200, .. }, false)
    ));
    for data in payload.chunks(17) {
        let message = RawResponseStreamNotification {
            request_id: RequestId::Text("id".to_string()),
            event: RawResponseStreamEvent::Chunk {
                data: data.to_vec(),
            },
        };
        let mut wire = Json::object();
        wire.put("method", Json::Text("rawResponse/stream".to_string()));
        wire.put("params", message.to_json());
        match relay.message(&wire) {
            Relayed::Part(RawResponseStreamEvent::Chunk { data: seen }, told) => {
                assert_eq!(seen, data);
                assert!(!told);
            }
            other => panic!("{other:?}"),
        }
    }
    assert!(matches!(
        relay.message(&j(r#"{"id":"other","result":{}}"#)),
        Relayed::Ignored
    ));
    let ok = matches!(relay.message(&j(reply)), Relayed::Done);
    (ok, relay.end(ok).0)
}

#[test]
fn a_terminal_event_outlasts_an_error_that_trails_it() {
    for kind in [
        "response.completed",
        "response.failed",
        "response.incomplete",
    ] {
        let payload = format!("data: {{\"type\":\"{kind}\"}}\n\n");
        let (ok, ending) = relayed(
            payload.as_bytes(),
            r#"{"id":"id","error":{"code":-32603,"message":"connection lost after terminal"}}"#,
        );
        assert!(!ok);
        match ending {
            Ending::Confirmed(seen) => assert!(seen.terminal),
            other => panic!("{other:?}"),
        }
    }
}

#[test]
fn a_truncated_stream_stays_unknown_even_where_the_request_succeeds() {
    let payload = b"data: {\"type\":\"response.created\"}\n\n";
    let (ok, ending) = relayed(payload, r#"{"id":"id","result":{}}"#);
    assert!(ok && matches!(ending, Ending::Unknown));
    let (ok, ending) = relayed(
        payload,
        r#"{"id":"id","error":{"code":-32603,"message":"idle timeout"}}"#,
    );
    assert!(!ok && matches!(ending, Ending::Broken));
}

#[test]
fn notifications_are_written_and_read_back() {
    let mut headers = Table::new();
    headers.insert("a".to_string(), "b".to_string());
    let notification = RawResponseStreamNotification {
        request_id: RequestId::Number(7),
        event: RawResponseStreamEvent::Started {
            status: 201,
            headers,
        },
    };
    let written = notification.to_json();
    assert_eq!(
        written.to_text(),
        r#"{"event":{"headers":{"a":"b"},"status":201,"type":"started"},"requestId":7}"#
    );
    assert!(matches!(
        read_event(written.get("event").unwrap()),
        Some(Event::Stream(RawResponseStreamEvent::Started {
            status: 201,
            ..
        }))
    ));
    assert!(matches!(
        read_event(&j(r#"{"type":"completed"}"#)),
        Some(Event::Completed)
    ));
    assert!(read_event(&j(r#"{"type":"chunk","data":[256]}"#)).is_none());
    assert!(read_event(&j(r#"{"type":"else"}"#)).is_none());
}

#[test]
fn events_of_a_whole_document_are_handed_over_at_its_end() {
    let mut relay = Relay::new("id".to_string(), &j("{}"));
    relay.observer.recording = true;
    let message = |event: &str| {
        j(&format!(
            r#"{{"method":"rawResponse/stream","params":{{"requestId":"id","event":{event}}}}}"#
        ))
    };
    relay.message(&message(r#"{"type":"started","status":200,"headers":{}}"#));
    let document = br#"{"id":"resp","status":"completed"}"#;
    relay.message(&message(&format!(
        r#"{{"type":"chunk","data":{document:?}}}"#
    )));
    let (_, events) = relay.end(true);
    assert_eq!(events.len(), 1);
    assert!(events[0].says("id", "resp"));
}

#[test]
fn a_response_that_turns_the_request_away_tells_of_the_account() {
    for (status, expected) in [(399, false), (400, true), (429, true)] {
        let mut relay = Relay::new("id".to_string(), &j("{}"));
        let message = format!(
            r#"{{"method":"rawResponse/stream","params":{{"requestId":"id",
            "event":{{"type":"started","status":{status},"headers":{{}}}}}}}}"#
        );
        match relay.message(&j(&message)) {
            Relayed::Part(_, told) => assert_eq!(told, expected),
            other => panic!("{other:?}"),
        }
    }
}

#[test]
fn events_may_be_written_as_lists() {
    match read_event(&j(r#"["started",201,{"a":"b"}]"#)) {
        Some(Event::Stream(RawResponseStreamEvent::Started { status, headers })) => {
            assert_eq!(status, 201);
            assert_eq!(headers.get(&"a".to_string()), Some(&"b".to_string()));
        }
        other => panic!("{other:?}"),
    }
    match read_event(&j(r#"["chunk",[1,255]]"#)) {
        Some(Event::Stream(RawResponseStreamEvent::Chunk { data })) => {
            assert_eq!(data, vec![1, 255])
        }
        other => panic!("{other:?}"),
    }
    assert!(matches!(
        read_event(&j(r#"["completed"]"#)),
        Some(Event::Completed)
    ));
    for bad in [
        "[]",
        r#"["started",201]"#,
        r#"["started",201,{},0]"#,
        r#"["chunk"]"#,
        r#"["completed",1]"#,
        r#"[["completed"]]"#,
    ] {
        assert!(read_event(&j(bad)).is_none(), "{bad}");
    }
}
