use responses_api_proxy::json::parse_text;
use responses_api_proxy::json::Json;
use responses_api_proxy::quota::Share;
use responses_api_proxy::usage::normalize;
use responses_api_proxy::usage::query;
use responses_api_proxy::usage::refusal;
use responses_api_proxy::usage::used_shares;
use responses_api_proxy::usage::CredentialError;
use responses_api_proxy::usage::Known;

fn j(text: &str) -> Json {
    parse_text(text).unwrap()
}

fn number(x: f64) -> Json {
    parse_text(&format!("{x:?}")).unwrap()
}

fn shown(payload: &Json, now: u64) -> Option<Json> {
    let shares: Vec<Known> = used_shares(payload)
        .into_iter()
        .map(|bits| {
            let used = f64::from_bits(bits);
            Known {
                bits,
                share: Share {
                    used: number(used),
                    remaining: number((100.0 - used).clamp(0.0, 100.0)),
                },
            }
        })
        .collect();
    normalize(payload, now, &shares)
}

#[test]
fn weekly_primary_is_not_relabelled_as_five_hours_and_identity_is_not_exposed() {
    let value = shown(
        &j(r#"{
            "plan_type":"pro","account_id":"private-account","email":"private@example.com",
            "rate_limit":{"allowed":true,"limit_reached":false,
                "primary_window":{"used_percent":83,"limit_window_seconds":604800,"reset_at":2000},
                "secondary_window":null},
            "credits":{"has_credits":false,"unlimited":false,"balance":null},
            "spend_control":{"reached":false}
        }"#),
        1000,
    )
    .unwrap();
    assert_eq!(
        value.to_text(),
        j(r#"{
            "plan_type":"pro","fetched_at":1000,"limits":[{"name":"Codex","allowed":true,"limit_reached":false,
                "windows":[{"seconds":604800,"used_percent":83.0,"remaining_percent":17.0,"reset_at":2000}]}],
            "credits":{"has_credits":false,"unlimited":false,"balance":null},
            "reset_credits":null,"spend_control_reached":false
        }"#)
        .to_text()
    );
}

#[test]
fn missing_percent_is_unknown_and_extra_limits_and_credit_precision_are_preserved() {
    let value = shown(
        &j(r#"{
            "plan_type":"plus","rate_limit":{"primary_window":{"limit_window_seconds":18000,"reset_after_seconds":90}},
            "additional_rate_limits":[{"limit_name":"Spark","rate_limit":{"allowed":false,"limit_reached":true,
                "primary_window":{"used_percent":110,"limit_window_seconds":604800}}}],
            "credits":{"has_credits":true,"unlimited":false,"balance":"12.340000001"},
            "rate_limit_reset_credits":{"available_count":2}
        }"#),
        1000,
    )
    .unwrap();
    assert_eq!(
        value.to_text(),
        j(r#"{
            "plan_type":"plus","fetched_at":1000,"limits":[
                {"name":"Codex","allowed":null,"limit_reached":null,
                 "windows":[{"seconds":18000,"used_percent":null,"remaining_percent":null,"reset_at":1090}]},
                {"name":"Spark","allowed":false,"limit_reached":true,
                 "windows":[{"seconds":604800,"used_percent":110.0,"remaining_percent":0.0,"reset_at":null}]}],
            "credits":{"has_credits":true,"unlimited":false,"balance":"12.340000001"},
            "reset_credits":2,"spend_control_reached":null
        }"#)
        .to_text()
    );
    assert!(shown(&j(r#"{"error":"unexpected response"}"#), 1000).is_none());
}

#[test]
fn negative_shares_are_unknown_and_names_are_bounded() {
    let long = "n".repeat(200);
    let value = shown(
        &j(&format!(
            r#"{{"plan_type":7,"additional_rate_limits":[
            {{"metered_feature":"{long}","rate_limit":{{"primary_window":{{"used_percent":-1}}}}}},
            {{"rate_limit":{{}}}},{{"rate_limit":3}}]}}"#
        )),
        5,
    )
    .unwrap();
    let limits = value.items_at("limits").unwrap();
    assert_eq!(limits.len(), 2);
    assert_eq!(limits[0].text_at("name").unwrap().len(), 128);
    let window = &limits[0].items_at("windows").unwrap()[0];
    assert!(window.lacks("used_percent") && window.lacks("remaining_percent"));
    assert_eq!(limits[1].text_at("name").unwrap(), "其他额度");
    assert!(value.lacks("plan_type"));
}

#[test]
fn the_selected_credentials_are_used() {
    assert_eq!(
        query(&j(
            r#"{"tokens":{"access_token":"selected-token","account_id":"selected-account"}}"#
        )),
        Ok((
            "Bearer selected-token".to_string(),
            "selected-account".to_string()
        ))
    );
    for (auth, expected) in [
        (r#"{"OPENAI_API_KEY":"k"}"#, CredentialError::NoToken),
        (
            r#"{"tokens":{"access_token":"t","account_id":""}}"#,
            CredentialError::NoAccount,
        ),
        (
            r#"{"tokens":{"access_token":"a\nb","account_id":"x"}}"#,
            CredentialError::TokenFormat,
        ),
        (
            r#"{"tokens":{"access_token":"a","account_id":"x\u0000"}}"#,
            CredentialError::AccountFormat,
        ),
    ] {
        assert_eq!(query(&j(auth)).unwrap_err(), expected);
    }
}

#[test]
fn refusals_are_told_by_their_status_alone() {
    let refused = refusal(401, None, 0);
    assert_eq!(refused.message, "账号认证已失效，请重新授权后查询");
    assert!(refused.auth_invalid);
    let refused = refusal(429, Some(" 90 "), 0);
    assert_eq!(refused.message, "上游额度查询过于频繁，请稍后重试");
    assert_eq!((refused.retry_after, refused.auth_invalid), (Some(90), false));
    assert_eq!(
        refusal(503, Some("later"), 0).message,
        "上游额度查询失败（HTTP 503）"
    );
}
