use responses_api_proxy::auth::is_authorized;
use responses_api_proxy::header::Header;

fn header(name: &str, value: &str) -> Header {
    Header {
        field: name.to_string(),
        value: value.to_string(),
    }
}

#[test]
fn allows_requests_when_authentication_is_disabled() {
    assert!(is_authorized(&vec![], None));
}

#[test]
fn requires_matching_bearer_token() {
    let headers = vec![header("Authorization", "Bearer worker-secret")];
    assert!(is_authorized(&headers, Some("worker-secret")));
    assert!(!is_authorized(&headers, Some("other-secret")));

    let headers = vec![header("Authorization", "bearer worker-secret")];
    assert!(is_authorized(&headers, Some("worker-secret")));
}

#[test]
fn rejects_missing_malformed_and_duplicate_headers() {
    assert!(!is_authorized(&vec![], Some("worker-secret")));
    assert!(!is_authorized(
        &vec![header("Authorization", "worker-secret")],
        Some("worker-secret")
    ));
    assert!(!is_authorized(
        &vec![
            header("Authorization", "Bearer worker-secret"),
            header("authorization", "Bearer worker-secret"),
        ],
        Some("worker-secret")
    ));
}

#[test]
fn an_empty_secret_authorizes_nobody() {
    assert!(!is_authorized(
        &vec![header("Authorization", "Bearer ")],
        Some("")
    ));
    assert!(!is_authorized(
        &vec![header("Authorization", "Basic x")],
        Some("x")
    ));
    assert!(is_authorized(
        &vec![header("AUTHORIZATION", "BEARER a b")],
        Some("a b")
    ));
}
