use reqwest::header::{HeaderMap, HeaderValue, RETRY_AFTER};
use slack_channel::api::{
    check_reply, has_distinct_names, open_socket_mode_url, request_body, ApiError,
};
use slack_channel::channel::SlackChannel;
use slack_channel::clock::{format_timestamp, parse_unsigned, Span};
use slack_channel::directory::Discovery;
use slack_channel::json::{parse_body, parse_json, Json};
use slack_channel::polling::unix_seconds;
use slack_channel::retry::{jitter_of, HistoryFetch, HistoryStep};
use std::time::{SystemTime, UNIX_EPOCH};

fn chars(text: &str) -> Vec<char> {
    text.chars().collect()
}

#[test]
fn json_values_are_read() {
    let j = parse_json(r#"{"n": null, "b": true, "x": 12.5, "t": "a\"b", "a": [1, "é"]}"#).unwrap();
    assert!(matches!(j.get("n"), Some(Json::Null)));
    assert_eq!(j.get_bool("b"), Some(true));
    assert_eq!(j.get_str("t"), Some("a\"b"));
    assert_eq!(j.get_str("b"), None);
    match j.get("x") {
        Some(Json::Number(t)) => assert_eq!(t, "12.5"),
        _ => panic!("no number"),
    }
    let items = j.get_array("a").unwrap();
    assert_eq!(items.len(), 2);
    assert_eq!(items[1].as_str(), Some("é"));
    assert!(j.get("missing").is_none());
}

#[test]
fn text_that_is_no_json_is_refused() {
    assert!(parse_json("{").is_none());
    assert!(matches!(parse_body("<html>"), Json::Null));
}

#[test]
fn last_of_repeated_members_counts() {
    let j = parse_json(r#"{"a": "first", "a": "second"}"#).unwrap();
    assert_eq!(j.get_str("a"), Some("second"));
}

#[test]
fn request_bodies_are_read_back() {
    let members = vec![
        ("text".to_string(), "line\n\"quoted\" \u{1F600}".to_string()),
        ("channel".to_string(), "C1".to_string()),
    ];
    let body = request_body(&members);
    let j = parse_json(&body).unwrap();
    assert_eq!(j.get_str("text"), Some("line\n\"quoted\" \u{1F600}"));
    assert_eq!(j.get_str("channel"), Some("C1"));
    assert_eq!(j.get_str("ts"), None);
    assert_eq!(
        request_body(&vec![("b".to_string(), "2".to_string()), ("a".to_string(), "1".to_string())]),
        r#"{"a":"1","b":"2"}"#
    );
}

#[test]
fn repeated_names_are_found() {
    let pair = |name: &str| (name.to_string(), "x".to_string());
    assert!(has_distinct_names(&vec![]));
    assert!(has_distinct_names(&vec![pair("a"), pair("b"), pair("c")]));
    assert!(!has_distinct_names(&vec![pair("a"), pair("b"), pair("a")]));
}

#[test]
fn replies_are_judged_by_status_and_payload() {
    assert!(check_reply(200, r#"{"ok": true}"#).is_ok());
    assert!(check_reply(204, "not json").is_ok());
    assert!(matches!(check_reply(500, r#"{"ok": true}"#), Err(ApiError::Status(500))));
    assert!(matches!(check_reply(300, ""), Err(ApiError::Status(300))));
    match check_reply(200, r#"{"ok": false, "error": "invalid_auth"}"#) {
        Err(ApiError::Refused(reason)) => assert_eq!(reason, "invalid_auth"),
        _ => panic!("not refused"),
    }
    match check_reply(200, r#"{"ok": false}"#) {
        Err(ApiError::Refused(reason)) => assert_eq!(reason, "unknown"),
        _ => panic!("not refused"),
    }
}

#[test]
fn failures_have_messages() {
    let e = ApiError::Status(503);
    assert_eq!(
        e.message("chat.postMessage", "503 Service Unavailable", "down"),
        "Slack chat.postMessage failed (503 Service Unavailable): down"
    );
    let e = ApiError::Refused("channel_not_found".to_string());
    assert_eq!(
        e.message("chat.postMessage", "200 OK", ""),
        "Slack chat.postMessage failed: channel_not_found"
    );
    assert_eq!(
        ApiError::NoAppToken.message("apps.connections.open", "", ""),
        "Slack Socket Mode requires app_token"
    );
    assert_eq!(
        ApiError::NoUrl.message("apps.connections.open", "", ""),
        "Slack apps.connections.open did not return url"
    );
}

#[test]
fn socket_address_is_taken_from_the_reply() {
    assert_eq!(
        open_socket_mode_url(200, r#"{"ok": true, "url": "wss://x"}"#).unwrap(),
        "wss://x"
    );
    assert!(matches!(open_socket_mode_url(200, r#"{"ok": true}"#), Err(ApiError::NoUrl)));
    assert!(matches!(open_socket_mode_url(404, ""), Err(ApiError::Status(404))));
    assert!(matches!(
        open_socket_mode_url(200, r#"{"ok": false, "error": "x", "url": "wss://x"}"#),
        Err(ApiError::Refused(_))
    ));
}

#[test]
fn discovery_walks_all_pages() {
    let mut walk = Discovery::new();
    assert_eq!(walk.query().len(), 3);
    let more = walk.on_reply(
        200,
        r#"{"ok": true, "channels": [{"id": "C2"}, {"id": "C9", "is_archived": true}],
            "response_metadata": {"next_cursor": " abc "}}"#,
    );
    assert!(more.unwrap());
    let query = walk.query();
    assert_eq!(query[3], ("cursor".to_string(), "abc".to_string()));
    let more = walk.on_reply(
        200,
        r#"{"ok": true, "channels": [{"id": "C1"}, {"id": "C2"}],
            "response_metadata": {"next_cursor": ""}}"#,
    );
    assert!(!more.unwrap());
    assert_eq!(walk.finish(), vec!["C1".to_string(), "C2".to_string()]);
}

#[test]
fn discovery_stops_at_a_failure() {
    let mut walk = Discovery::new();
    assert!(matches!(walk.on_reply(429, "{}"), Err(ApiError::Status(429))));
    assert!(walk.on_reply(200, r#"{"ok": false, "error": "missing_scope"}"#).is_err());
    assert!(walk.finish().is_empty());
}

#[test]
fn retry_after_header_is_optional_and_text() {
    let mut headers = HeaderMap::new();
    assert_eq!(SlackChannel::parse_retry_after_secs(&headers), None);
    headers.insert(RETRY_AFTER, HeaderValue::from_static("  7.25 "));
    assert_eq!(SlackChannel::parse_retry_after_secs(&headers), Some(7));
    headers.append(RETRY_AFTER, HeaderValue::from_static("99"));
    assert_eq!(SlackChannel::parse_retry_after_secs(&headers), Some(7));
    headers.insert(RETRY_AFTER, HeaderValue::from_bytes(&[0x35, 0xe9]).unwrap());
    assert_eq!(SlackChannel::parse_retry_after_secs(&headers), None);
    headers.insert(RETRY_AFTER, HeaderValue::from_static("soon"));
    assert_eq!(SlackChannel::parse_retry_after_secs(&headers), None);
}

#[test]
fn retry_after_values_follow_the_rules_of_numbers() {
    assert_eq!(SlackChannel::parse_retry_after_value("+5"), Some(5));
    assert_eq!(SlackChannel::parse_retry_after_value("+"), None);
    assert_eq!(SlackChannel::parse_retry_after_value("-5"), None);
    assert_eq!(SlackChannel::parse_retry_after_value(".5"), None);
    assert_eq!(SlackChannel::parse_retry_after_value("1.2.3"), Some(1));
    assert_eq!(
        SlackChannel::parse_retry_after_value("18446744073709551615"),
        Some(u64::MAX)
    );
    assert_eq!(SlackChannel::parse_retry_after_value("18446744073709551616"), None);
    assert_eq!(parse_unsigned(&chars("0042")), Some(42));
}

#[test]
fn retry_delays_double_up_to_the_limit() {
    let secs = |base, attempt| SlackChannel::compute_retry_delay(base, attempt, 0).as_secs();
    assert_eq!(secs(1, 0), 1);
    assert_eq!(secs(1, 1), 2);
    assert_eq!(secs(1, 2), 4);
    assert_eq!(secs(1, 6), 64);
    assert_eq!(secs(1, 7), 120);
    assert_eq!(secs(0, 200), 0);
    assert_eq!(secs(1, 64), 120);
    assert_eq!(secs(u64::MAX, 63), 120);
    assert_eq!(
        SlackChannel::compute_retry_delay(0, 0, 250).nanos,
        250_000_000
    );
}

#[test]
fn jitter_stays_below_its_limit() {
    assert_eq!(jitter_of(1234, 500), 232);
    assert_eq!(jitter_of(500, 500), 500);
    assert_eq!(jitter_of(501, 500), 0);
    assert_eq!(SlackChannel::jitter_ms_from_clock(0), 0);
    assert!(SlackChannel::jitter_ms_from_clock(500) <= 500);
}

#[test]
fn retry_timestamps_are_dates() {
    assert_eq!(
        SlackChannel::retry_timestamp_at(0, 0, Span::from_millis(1500)),
        "1970-01-01T00:00:01.500+00:00"
    );
    assert_eq!(
        SlackChannel::retry_timestamp_at(1_700_000_000, 999_999_999, Span { nanos: 1 }),
        "2023-11-14T22:13:21+00:00"
    );
    // A wait that is too long counts as none.
    assert_eq!(
        SlackChannel::retry_timestamp_at(0, 0, Span { nanos: u128::MAX }),
        "1970-01-01T00:00:00+00:00"
    );
    let next = SlackChannel::next_retry_timestamp(Span::from_secs(5)).unwrap();
    assert!(next.ends_with("+00:00"));
    assert!(next.contains('T'));
    assert!(SlackChannel::next_retry_timestamp(Span::from_secs(8_210_266_876_800)).is_none());
}

#[test]
fn the_last_date_is_written() {
    assert_eq!(
        SlackChannel::retry_timestamp_at(8_210_266_876_799, 999_999_999, Span::from_secs(0)),
        "+262142-12-31T23:59:59.999999999+00:00"
    );
}

#[test]
fn history_is_taken_from_a_good_reply() {
    let mut fetch = HistoryFetch::new();
    match fetch.on_reply(200, &HeaderMap::new(), r#"{"ok": true, "messages": []}"#) {
        HistoryStep::Done(payload) => assert!(payload.get_array("messages").is_some()),
        _ => panic!("no history"),
    }
    assert_eq!(fetch.attempt, 0);
}

#[test]
fn history_is_asked_for_again_at_a_rate_limit() {
    let mut headers = HeaderMap::new();
    headers.insert(RETRY_AFTER, HeaderValue::from_static("2"));
    let mut fetch = HistoryFetch::new();
    for attempt in 0u32..3 {
        match fetch.on_reply(429, &headers, "slow down") {
            HistoryStep::Retry { wait, retry_after_secs } => {
                assert_eq!(retry_after_secs, 2);
                let least = 2_000_000_000u128 << attempt;
                assert!(least <= wait.nanos && wait.nanos <= least + 500_000_000);
            }
            _ => panic!("no retry"),
        }
    }
    assert_eq!(fetch.attempt, 3);
    assert!(fetch.total_wait.as_secs() >= 14);
    assert!(matches!(fetch.on_reply(429, &headers, ""), HistoryStep::Exhausted));
}

#[test]
fn rate_limit_in_the_payload_counts() {
    let mut fetch = HistoryFetch::new();
    let body = parse_body(r#"{"ok": false, "error": "ratelimited"}"#);
    match fetch.decide(200, None, body, 7) {
        HistoryStep::Retry { wait, retry_after_secs } => {
            assert_eq!(retry_after_secs, 1);
            assert_eq!(wait.nanos, 1_007_000_000);
        }
        _ => panic!("no retry"),
    }
    // The reason alone, without a refusal, is no rate limit.
    let body = parse_body(r#"{"ok": true, "error": "ratelimited"}"#);
    assert!(matches!(fetch.decide(200, None, body, 0), HistoryStep::Done(_)));
}

#[test]
fn history_fails_at_other_errors() {
    let mut fetch = HistoryFetch::new();
    assert!(matches!(
        fetch.on_reply(500, &HeaderMap::new(), ""),
        HistoryStep::Failed(ApiError::Status(500))
    ));
    assert!(matches!(
        fetch.on_reply(200, &HeaderMap::new(), r#"{"ok": false, "error": "x"}"#),
        HistoryStep::Failed(ApiError::Refused(_))
    ));
    assert_eq!(fetch.attempt, 0);
}

#[test]
fn timestamps_have_six_digits_of_microseconds() {
    assert_eq!(format_timestamp(1_700_000_000, 123_456_789), "1700000000.123456");
    assert_eq!(format_timestamp(0, 999), "0.000000");
    assert_eq!(format_timestamp(u64::MAX, 1_000), "18446744073709551615.000001");
}

#[test]
fn timestamps_stand_in_the_order_of_time() {
    let earlier = format_timestamp(1_699_999_999, 999_999_000);
    let later = format_timestamp(1_700_000_000, 0);
    assert!(earlier < later);
    assert!(slack_channel::text::is_before(&earlier, &later));
    assert!(!slack_channel::text::is_before(&later, &earlier));
    assert!(!slack_channel::text::is_before(&later, &later));
}

#[test]
fn current_timestamp_is_the_time_of_the_clock() {
    let before = SystemTime::now().duration_since(UNIX_EPOCH).unwrap().as_secs();
    let ts = SlackChannel::slack_now_ts();
    let seconds = unix_seconds();
    let after = SystemTime::now().duration_since(UNIX_EPOCH).unwrap().as_secs();
    let (whole, fraction) = ts.split_once('.').unwrap();
    let whole: u64 = whole.parse().unwrap();
    assert!(before <= whole && whole <= after);
    assert!(before <= seconds && seconds <= after);
    assert_eq!(fraction.len(), 6);
    assert!(fraction.chars().all(|c| c.is_ascii_digit()));
}
