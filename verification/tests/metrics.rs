use responses_api_proxy::clock::SECOND;
use responses_api_proxy::json::parse_text;
use responses_api_proxy::json::Json;
use responses_api_proxy::metrics::model_from_json;
use responses_api_proxy::metrics::Metrics;
use responses_api_proxy::metrics::Times;
use responses_api_proxy::metrics::RECENT_LIMIT;

const NOW: u64 = 1_700_000_000;

fn milliseconds(duration: u128) -> Json {
    parse_text(&format!("{:?}", duration as f64 / 1e6)).unwrap()
}

fn snapshot(metrics: &Metrics) -> Json {
    let average = if metrics.completed == 0 {
        0
    } else {
        metrics.total_duration / metrics.completed as u128
    };
    metrics.snapshot(&Times {
        average: milliseconds(average),
        max: milliseconds(metrics.max_duration),
        recent: metrics
            .recent
            .iter()
            .map(|sample| milliseconds(sample.duration))
            .collect(),
    })
}

fn at<'a>(value: &'a Json, key: &str) -> &'a Json {
    value.get(key).unwrap()
}

fn detail(metrics: &Metrics, id: u64) -> Option<Json> {
    let position = metrics.find(id)?;
    metrics.detail(id, milliseconds(metrics.recent[position].duration))
}

#[test]
fn counts_completed_statuses_and_keeps_only_bounded_recent_samples() {
    let mut metrics = Metrics::new(NOW);
    for _ in 0..105 {
        let mut request = metrics.start(0);
        request.status = 429;
        request.delivered = true;
        metrics.finish(request, 0, NOW);
    }
    let pending = metrics.start(0);
    let shown = snapshot(&metrics);
    assert_eq!(shown.number_at("total"), Some(106));
    assert_eq!(shown.number_at("completed"), Some(105));
    assert_eq!(shown.number_at("in_flight"), Some(1));
    assert_eq!(at(&shown, "status_counts").to_text(), r#"{"429":105}"#);
    assert_eq!(shown.items_at("recent").unwrap().len(), RECENT_LIMIT);
    assert_eq!(shown.number_at("transport_errors"), Some(0));
    metrics.finish(pending, 0, NOW);
    let shown = snapshot(&metrics);
    assert_eq!(
        at(&shown, "status_counts").to_text(),
        r#"{"429":105,"500":1}"#
    );
    assert_eq!(shown.number_at("transport_errors"), Some(1));
    assert_eq!(shown.number_at("in_flight"), Some(0));
}

#[test]
fn latency_tracks_the_entire_request_lifetime() {
    let mut metrics = Metrics::new(NOW);
    let instant = 10 * SECOND;
    let mut request = metrics.start(instant);
    request.started -= 2 * SECOND;
    request.status = 200;
    request.delivered = true;
    metrics.finish(request, instant, NOW);
    let shown = snapshot(&metrics);
    let recent = at(&shown.items_at("recent").unwrap()[0], "duration_ms");
    let duration = f64::from_bits(recent.as_bits().unwrap());
    assert!(duration >= 2000.0);
    assert_eq!(
        at(&shown, "average_duration_ms").to_text(),
        recent.to_text()
    );
    assert_eq!(at(&shown, "max_duration_ms").to_text(), recent.to_text());
}

#[test]
fn request_detail_is_bounded_evicted_and_excluded_from_summary() {
    let mut metrics = Metrics::new(NOW);
    let mut request = metrics.start(0);
    request.capture(br#"{"model":"example","input":"hello"}"#);
    metrics.finish(request, 0, NOW);
    assert_eq!(
        detail(&metrics, 1).unwrap().text_at("body").unwrap(),
        r#"{"model":"example","input":"hello"}"#
    );
    assert!(snapshot(&metrics).items_at("recent").unwrap()[0]
        .get("body")
        .is_none());
    let mut request = metrics.start(0);
    request.capture(&vec![b'a'; 70 * 1024]);
    metrics.finish(request, 0, NOW);
    let second = detail(&metrics, 2).unwrap();
    assert_eq!(second.text_at("body").unwrap().len(), 64 * 1024);
    assert!(second.is("body_truncated", true));
    for _ in 0..100 {
        let request = metrics.start(0);
        metrics.finish(request, 0, NOW);
    }
    assert!(detail(&metrics, 1).is_none());
    assert!(detail(&metrics, 2).is_none());
}

#[test]
fn counts_models_from_request_body() {
    let mut metrics = Metrics::new(NOW);
    let mut first = metrics.start(0);
    first.capture(br#"{"model":"gpt-6-astra","input":[]}"#);
    first.status = 200;
    first.delivered = true;
    let mut second = metrics.start(0);
    second.capture(br#"{"model":"gpt-5.5","input":[]}"#);
    second.status = 200;
    second.delivered = true;
    metrics.finish(first, 0, NOW);
    metrics.finish(second, 0, NOW);
    assert_eq!(
        at(&snapshot(&metrics), "model_counts").to_text(),
        r#"{"gpt-5.5":1,"gpt-6-astra":1}"#
    );
}

#[test]
fn truncated_upstream_snapshot_does_not_erase_model() {
    let mut metrics = Metrics::new(NOW);
    let mut request = metrics.start(0);
    request.capture(br#"{"model":"gpt-6-astra","input":[]}"#);
    request.capture_upstream_model(
        &parse_text(r#"{"body":"{\"client_metadata\":{\"large\":"}"#).unwrap(),
    );
    request.status = 200;
    request.delivered = true;
    metrics.finish(request, 0, NOW);
    assert_eq!(
        at(&snapshot(&metrics), "model_counts").to_text(),
        r#"{"gpt-6-astra":1}"#
    );
}

#[test]
fn bytes_that_are_no_text_are_shown_with_a_mark() {
    let mut metrics = Metrics::new(NOW);
    let mut request = metrics.start(0);
    request.capture(b"a\xffb");
    metrics.finish(request, 0, NOW);
    assert_eq!(
        detail(&metrics, 1).unwrap().text_at("body").unwrap(),
        "a\u{fffd}b"
    );
}

#[test]
fn models_have_short_names() {
    assert_eq!(model_from_json(br#"{"model":"m"}"#), Some("m".to_string()));
    assert_eq!(model_from_json(br#"{"model":7}"#), None);
    assert_eq!(model_from_json(b"{"), None);
}
