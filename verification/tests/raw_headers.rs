use http::HeaderMap;
use http::HeaderName;
use http::HeaderValue;
use responses_api_proxy::raw_headers::raw_responses_headers;
use responses_api_proxy::raw_headers::request_headers;
use responses_api_proxy::raw_headers::request_headers_as;
use responses_api_proxy::raw_headers::response_headers;
use responses_api_proxy::raw_headers::HeaderError;
use responses_api_proxy::table::Table;
use uuid::Uuid;

fn pairs(list: &[(&str, &str)]) -> Vec<(String, String)> {
    list.iter()
        .map(|(name, value)| (name.to_string(), value.to_string()))
        .collect()
}

fn map(list: &[(&str, &str)]) -> HeaderMap {
    list.iter()
        .map(|(name, value)| {
            (
                HeaderName::from_bytes(name.as_bytes()).unwrap(),
                HeaderValue::from_str(value).unwrap(),
            )
        })
        .collect()
}

fn entries(table: &Table<String, String>) -> Vec<(String, String)> {
    let mut list = table.entries.clone();
    list.sort();
    list
}

#[test]
fn preserves_allowed_headers_and_normalizes_names() {
    let supplied = [
        ("X-Codex-Turn-State", "opaque-token"),
        ("x-codex-inference-call-id", "caller-id"),
        ("traceparent", "00-abc-def-01"),
        ("tracestate", "vendor=value"),
    ];
    assert_eq!(request_headers(&pairs(&supplied)).unwrap(), map(&supplied));
}

#[test]
fn generates_distinct_ids_without_reusing_routing_or_trace_state() {
    let first = request_headers(&Vec::new()).unwrap();
    let second = request_headers(&Vec::new()).unwrap();
    assert_eq!(first.len(), 1);
    assert_eq!(second.len(), 1);
    for headers in [&first, &second] {
        let id = Uuid::parse_str(headers["x-codex-inference-call-id"].to_str().unwrap()).unwrap();
        assert_eq!(id.get_version(), Some(uuid::Version::Random));
    }
    assert_ne!(first, second);
}

#[test]
fn rejects_unsafe_headers() {
    let long = "x".repeat(8193);
    for supplied in [
        pairs(&[("authorization", "secret")]),
        pairs(&[("traceparent", "a\r\nb")]),
        pairs(&[("tracestate", long.as_str())]),
        pairs(&[("Traceparent", "one"), ("traceparent", "two")]),
    ] {
        assert!(request_headers(&supplied).is_err());
    }
}

#[test]
fn returns_only_bounded_upstream_routing_state() {
    let mut upstream = HeaderMap::new();
    upstream.insert("set-cookie", HeaderValue::from_static("secret"));
    assert_eq!(entries(&response_headers(&upstream)), Vec::new());
    upstream.insert("x-codex-turn-state", HeaderValue::from_static("next-token"));
    assert_eq!(
        entries(&response_headers(&upstream)),
        pairs(&[("x-codex-turn-state", "next-token")])
    );
    upstream.insert(
        "x-codex-turn-state",
        HeaderValue::from_str(&"x".repeat(8193)).unwrap(),
    );
    assert_eq!(entries(&response_headers(&upstream)), Vec::new());
}

#[test]
fn preserves_retry_hint_and_media_type_but_rejects_ambiguous_values() {
    let mut headers = HeaderMap::new();
    headers.insert(
        "retry-after",
        HeaderValue::from_static("Wed, 21 Oct 2037 07:28:00 GMT"),
    );
    headers.insert("content-type", HeaderValue::from_static("application/json"));
    headers.insert("authorization", HeaderValue::from_static("secret"));
    assert_eq!(
        entries(&response_headers(&headers)),
        pairs(&[
            ("content-type", "application/json"),
            ("retry-after", "Wed, 21 Oct 2037 07:28:00 GMT"),
        ])
    );
    headers.append("retry-after", HeaderValue::from_static("5"));
    headers.insert(
        "content-type",
        HeaderValue::from_str(&"a".repeat(1025)).unwrap(),
    );
    assert_eq!(entries(&response_headers(&headers)), Vec::new());
}

#[test]
fn preserves_application_headers_and_excludes_caller_transport_state() {
    let preserved = [
        ("X-OpenAI-Internal-Codex-Responses-Lite", "true"),
        ("X-Codex-Beta-Features", "feature-a,feature-b"),
        ("X-Future-Application-Header", "opaque value"),
        ("Content-Type", "application/json"),
        ("X-Codex-Turn-Metadata", "{}"),
        ("Session_Id", "client-session"),
        ("X-Stainless-Lang", "python"),
        ("Traceparent", "application-trace"),
        ("Tracestate", "vendor=value"),
        ("Baggage", "request-kind=smoke"),
        ("X-Request-ID", "application-request"),
    ];
    let mut supplied = pairs(&preserved);
    supplied.extend(pairs(&[
        ("Authorization", "Bearer client"),
        ("X-Api-Key", "client-key"),
        ("Cookie", "client-cookie"),
        ("ChatGPT-Account-Id", "client-account"),
        ("OpenAI-Project", "client-project"),
        ("X-Oai-Attestation", "client-signature"),
        ("User-Agent", "client-agent"),
        ("Originator", "client-originator"),
        ("Session-Id", "client-session"),
        ("Thread-Id", "client-thread"),
        ("X-Client-Request-Id", "client-request"),
        ("Host", "client-host"),
        ("Content-Length", "999"),
        ("Content-Encoding", "gzip"),
        ("Accept-Encoding", "br"),
        ("Transfer-Encoding", "chunked"),
        ("X-Codex-Queue-Principal", "internal"),
        ("X-Forwarded-For", "client-ip"),
        ("X-Hop-Only", "private"),
        ("Connection", "keep-alive, X-Hop-Only"),
        ("Keep-Alive", "timeout=60"),
        ("CDN-Loop", "cloudflare; loops=1"),
        ("CF-Ray", "edge-ray"),
        ("CF-EW-Via", "15"),
        ("CF-Worker", "ingress.example"),
        ("CF-Connecting-IPv6", "2001:db8::1"),
        ("CF-Pseudo-IPv4", "240.0.0.1"),
        ("CF-Access-Jwt-Assertion", "ingress-jwt"),
        ("CF-Access-Client-Id", "ingress-id"),
        ("CF-Access-Client-Secret", "ingress-secret"),
        ("True-Client-IP", "203.0.113.1"),
        ("Fastly-Client-IP", "203.0.113.1"),
        ("X-Envoy-External-Address", "203.0.113.1"),
        ("Origin", "https://ingress.example"),
        ("Referer", "https://ingress.example/private"),
        ("Sec-Fetch-Site", "same-origin"),
        ("Sec-CH-UA", "browser"),
        ("Sec-CH-UA-Platform", "platform"),
    ]));
    assert_eq!(raw_responses_headers(&supplied).unwrap(), map(&preserved));
}

#[test]
fn rejects_duplicate_invalid_and_oversized_headers_before_filtering() {
    for supplied in [
        pairs(&[("X-Custom", "one"), ("x-custom", "two")]),
        pairs(&[("Authorization", "one"), ("authorization", "two")]),
        pairs(&[("bad name", "value")]),
        pairs(&[("x-custom", "a\r\nb")]),
        pairs(&[("connection", "invalid token")]),
    ] {
        assert!(raw_responses_headers(&supplied).is_err());
    }
    assert!(raw_responses_headers(&pairs(&[("x-custom", "x".repeat(8193).as_str())])).is_err());
    let many: Vec<(String, String)> = (0..129)
        .map(|i| (format!("x-custom-{i}"), "v".to_owned()))
        .collect();
    assert!(raw_responses_headers(&many).is_err());
    let large: Vec<(String, String)> = (0..9)
        .map(|i| (format!("x-custom-{i}"), "x".repeat(8192)))
        .collect();
    assert!(raw_responses_headers(&large).is_err());
}

#[test]
fn each_refusal_is_told_apart() {
    let cases = [
        (pairs(&[("x", &"v".repeat(8193))]), HeaderError::TooLarge),
        (pairs(&[("bad name", "v")]), HeaderError::Name),
        (pairs(&[("", "v")]), HeaderError::Name),
        (pairs(&[("x", "a\nb")]), HeaderError::Value),
        (pairs(&[("x", "é")]), HeaderError::Text),
        (pairs(&[("X", "1"), ("x", "2")]), HeaderError::Duplicate),
        (pairs(&[("connection", "a, b c")]), HeaderError::ConnectionToken),
    ];
    for (supplied, expected) in cases {
        assert_eq!(raw_responses_headers(&supplied).unwrap_err(), expected);
    }
    assert_eq!(
        request_headers(&pairs(&[("Authorization", "x")])).unwrap_err(),
        HeaderError::Credentials
    );
    assert_eq!(
        request_headers_as(&Vec::new(), "a\nb").unwrap_err(),
        HeaderError::CallId
    );
    assert_eq!(
        HeaderError::Duplicate.message(),
        "duplicate raw Responses header"
    );
    assert_eq!(
        HeaderError::ConnectionToken.message(),
        "invalid Connection header token"
    );
}

#[test]
fn a_connection_header_may_nominate_nothing_and_keeps_tabs() {
    let headers =
        raw_responses_headers(&pairs(&[("Connection", " , ,close"), ("X-A", "a\tb")])).unwrap();
    assert_eq!(headers, map(&[("x-a", "a\tb")]));
}

#[test]
fn filtering_filtered_headers_changes_nothing() {
    let once = raw_responses_headers(&pairs(&[
        ("Authorization", "Bearer client"),
        ("Connection", "X-Hop"),
        ("X-Hop", "private"),
        ("X-Kept", "Value"),
        ("Content-Type", "application/json"),
    ]))
    .unwrap();
    let mut again: Vec<(String, String)> = once
        .iter()
        .map(|(name, value)| {
            (
                name.as_str().to_string(),
                value.to_str().unwrap().to_string(),
            )
        })
        .collect();
    assert_eq!(raw_responses_headers(&again).unwrap(), once);
    again.reverse();
    assert_eq!(raw_responses_headers(&again).unwrap(), once);
    assert_eq!(
        once,
        map(&[("x-kept", "Value"), ("content-type", "application/json")])
    );
}

#[test]
fn only_the_named_headers_of_proxies_and_browsers_are_dropped() {
    let kept = [("cf-other", "1"), ("sec-fetch-mode", "2"), ("sec-ch-ua-model", "3")];
    let mut supplied = pairs(&kept);
    supplied.extend(pairs(&[("CF-Ray", "r"), ("Sec-CH-UA", "u"), ("Sec-Fetch-Site", "s")]));
    assert_eq!(raw_responses_headers(&supplied).unwrap(), map(&kept));
}
