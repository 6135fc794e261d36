use reqwest::header::HeaderMap;
use slack_channel::channel::SlackChannel;
use slack_channel::clock::Span;
use slack_channel::inbound::message_id;
use slack_channel::json::{parse_json, Json};
use slack_channel::messages::StreamMode;
use slack_channel::tables::{CachedSlackDisplayName, CursorTable};
use std::time::Duration;

fn json(text: &str) -> Json {
    parse_json(text).unwrap()
}

#[test]
fn slack_channel_name() {
    let ch = SlackChannel::new("xoxb-fake".into(), None, None, vec![], vec![]);
    assert_eq!(ch.name(), "slack");
}

#[test]
fn slack_channel_with_channel_id() {
    let ch = SlackChannel::new(
        "xoxb-fake".into(),
        None,
        Some("C12345".into()),
        vec![],
        vec![],
    );
    assert_eq!(ch.channel_id, Some("C12345".to_string()));
}

#[test]
fn slack_group_reply_policy_defaults_to_all_messages() {
    let ch = SlackChannel::new("xoxb-fake".into(), None, None, vec![], vec!["*".into()]);
    assert!(!ch.mention_only);
    assert!(ch.group_reply_allowed_sender_ids.is_empty());
}

#[test]
fn slack_group_reply_policy_applies_sender_overrides() {
    let ch = SlackChannel::new("xoxb-fake".into(), None, None, vec![], vec!["*".into()])
        .with_group_reply_policy(true, vec![" U111 ".into(), "U111".into(), "U222".into()]);

    assert!(ch.mention_only);
    assert_eq!(
        ch.group_reply_allowed_sender_ids,
        vec!["U111".to_string(), "U222".to_string()]
    );
    assert!(ch.is_group_sender_trigger_enabled("U111"));
    assert!(!ch.is_group_sender_trigger_enabled("U999"));
}

#[test]
fn normalized_channel_id_respects_wildcard_and_blank() {
    assert_eq!(SlackChannel::normalized_channel_id(None), None);
    assert_eq!(SlackChannel::normalized_channel_id(Some("")), None);
    assert_eq!(SlackChannel::normalized_channel_id(Some("   ")), None);
    assert_eq!(SlackChannel::normalized_channel_id(Some("*")), None);
    assert_eq!(SlackChannel::normalized_channel_id(Some(" * ")), None);
    assert_eq!(
        SlackChannel::normalized_channel_id(Some(" C12345 ")),
        Some("C12345".to_string())
    );
}

#[test]
fn configured_app_token_ignores_blank_values() {
    let ch = SlackChannel::new("xoxb-fake".into(), Some("   ".into()), None, vec![], vec![]);
    assert_eq!(ch.configured_app_token(), None);
}

#[test]
fn configured_app_token_trims_value() {
    let ch = SlackChannel::new(
        "xoxb-fake".into(),
        Some(" xapp-123 ".into()),
        None,
        vec![],
        vec![],
    );
    assert_eq!(ch.configured_app_token().as_deref(), Some("xapp-123"));
}

#[test]
fn scoped_channel_ids_prefers_explicit_list() {
    let ch = SlackChannel::new(
        "xoxb-fake".into(),
        None,
        Some("C_SINGLE".into()),
        vec!["C_LIST1".into(), "D_DM1".into()],
        vec![],
    );
    assert_eq!(
        ch.scoped_channel_ids(),
        Some(vec!["C_LIST1".to_string(), "D_DM1".to_string()])
    );
}

#[test]
fn scoped_channel_ids_falls_back_to_single_channel_id() {
    let ch = SlackChannel::new(
        "xoxb-fake".into(),
        None,
        Some("C_SINGLE".into()),
        vec![],
        vec![],
    );
    assert_eq!(ch.scoped_channel_ids(), Some(vec!["C_SINGLE".to_string()]));
}

#[test]
fn scoped_channel_ids_returns_none_for_wildcard_mode() {
    let ch = SlackChannel::new("xoxb-fake".into(), None, None, vec![], vec![]);
    assert_eq!(ch.scoped_channel_ids(), None);
}

#[test]
fn is_group_channel_id_detects_channel_prefixes() {
    assert!(SlackChannel::is_group_channel_id("C123"));
    assert!(SlackChannel::is_group_channel_id("G123"));
    assert!(!SlackChannel::is_group_channel_id("D123"));
    assert!(!SlackChannel::is_group_channel_id(""));
}

#[test]
fn extract_channel_ids_filters_archived_and_non_member_entries() {
    let payload = json(
        r#"{ "channels": [ {"id": "C1", "is_archived": false, "is_member": true}, {"id": "C2", "is_archived": true, "is_member": true}, {"id": "C3", "is_archived": false, "is_member": false}, {"id": "C1", "is_archived": false, "is_member": true}, {"id": "C4"} ] }"#,
    );
    let ids = SlackChannel::extract_channel_ids(&payload);
    assert_eq!(ids, vec!["C1".to_string(), "C4".to_string()]);
}

#[test]
fn empty_allowlist_denies_everyone() {
    let ch = SlackChannel::new("xoxb-fake".into(), None, None, vec![], vec![]);
    assert!(!ch.is_user_allowed("U12345"));
    assert!(!ch.is_user_allowed("anyone"));
}

#[test]
fn wildcard_allows_everyone() {
    let ch = SlackChannel::new("xoxb-fake".into(), None, None, vec![], vec!["*".into()]);
    assert!(ch.is_user_allowed("U12345"));
}

#[test]
fn extract_user_display_name_prefers_profile_display_name() {
    let payload = json(
        r#"{ "ok": true, "user": { "name": "fallback_name", "profile": { "display_name": "Display Name", "real_name": "Real Name" } } }"#,
    );

    assert_eq!(
        SlackChannel::extract_user_display_name(&payload).as_deref(),
        Some("Display Name")
    );
}

#[test]
fn extract_user_display_name_falls_back_to_username() {
    let payload = json(
        r#"{ "ok": true, "user": { "name": "fallback_name", "profile": { "display_name": "   ", "real_name": "" } } }"#,
    );

    assert_eq!(
        SlackChannel::extract_user_display_name(&payload).as_deref(),
        Some("fallback_name")
    );
}

#[test]
fn cached_sender_display_name_returns_none_when_expired() {
    let mut ch = SlackChannel::new("xoxb-fake".into(), None, None, vec![], vec!["*".into()]);
    {
        ch.user_display_name_cache.insert(
            "U123",
            CachedSlackDisplayName {
                display_name: "Expired Name".to_string(),
                expires_at: Span::from_secs(99),
            },
        );
    }

    assert_eq!(ch.cached_sender_display_name("U123", Span::from_secs(100)), None);
}

#[test]
fn cached_sender_display_name_returns_cached_value_when_valid() {
    let mut ch = SlackChannel::new("xoxb-fake".into(), None, None, vec![], vec!["*".into()]);
    let now = Span::from_secs(100);
    ch.cache_sender_display_name("U123", "Cached Name", now);

    assert_eq!(
        ch.cached_sender_display_name("U123", now).as_deref(),
        Some("Cached Name")
    );
}

#[test]
fn normalize_incoming_content_requires_mention_when_enabled() {
    assert!(SlackChannel::normalize_incoming_content("hello", true, "U_BOT").is_none());
    assert_eq!(
        SlackChannel::normalize_incoming_content("<@U_BOT> run", true, "U_BOT").as_deref(),
        Some("run")
    );
}

#[test]
fn normalize_incoming_content_without_mention_mode_keeps_message() {
    assert_eq!(
        SlackChannel::normalize_incoming_content("  hello world  ", false, "U_BOT").as_deref(),
        Some("hello world")
    );
}

#[test]
fn specific_allowlist_filters() {
    let ch = SlackChannel::new(
        "xoxb-fake".into(),
        None,
        None,
        vec![],
        vec!["U111".into(), "U222".into()],
    );
    assert!(ch.is_user_allowed("U111"));
    assert!(ch.is_user_allowed("U222"));
    assert!(!ch.is_user_allowed("U333"));
}

#[test]
fn allowlist_exact_match_not_substring() {
    let ch = SlackChannel::new("xoxb-fake".into(), None, None, vec![], vec!["U111".into()]);
    assert!(!ch.is_user_allowed("U1111"));
    assert!(!ch.is_user_allowed("U11"));
}

#[test]
fn allowlist_empty_user_id() {
    let ch = SlackChannel::new("xoxb-fake".into(), None, None, vec![], vec!["U111".into()]);
    assert!(!ch.is_user_allowed(""));
}

#[test]
fn allowlist_case_sensitive() {
    let ch = SlackChannel::new("xoxb-fake".into(), None, None, vec![], vec!["U111".into()]);
    assert!(ch.is_user_allowed("U111"));
    assert!(!ch.is_user_allowed("u111"));
}

#[test]
fn allowlist_wildcard_and_specific() {
    let ch = SlackChannel::new(
        "xoxb-fake".into(),
        None,
        None,
        vec![],
        vec!["U111".into(), "*".into()],
    );
    assert!(ch.is_user_allowed("U111"));
    assert!(ch.is_user_allowed("anyone"));
}

#[test]
fn slack_message_id_format_includes_channel_and_ts() {
    // Verify that message IDs follow the format: slack_{channel_id}_{ts}
    let ts = "1234567890.123456";
    let channel_id = "C12345";
    let expected_id = message_id(channel_id, ts);
    assert_eq!(expected_id, "slack_C12345_1234567890.123456");
}

#[test]
fn slack_message_id_is_deterministic() {
    // Same channel_id + same ts = same ID (prevents duplicates after restart)
    let ts = "1234567890.123456";
    let channel_id = "C12345";
    let id1 = message_id(channel_id, ts);
    let id2 = message_id(channel_id, ts);
    assert_eq!(id1, id2);
}

#[test]
fn slack_message_id_different_ts_different_id() {
    // Different timestamps produce different IDs
    let channel_id = "C12345";
    let id1 = message_id(channel_id, "1234567890.123456");
    let id2 = message_id(channel_id, "1234567890.123457");
    assert_ne!(id1, id2);
}

#[test]
fn slack_message_id_different_channel_different_id() {
    // Different channels produce different IDs even with same ts
    let ts = "1234567890.123456";
    let id1 = message_id("C12345", ts);
    let id2 = message_id("C67890", ts);
    assert_ne!(id1, id2);
}

#[test]
fn slack_message_id_no_uuid_randomness() {
    // Verify format doesn't contain random UUID components
    let ts = "1234567890.123456";
    let channel_id = "C12345";
    let id = message_id(channel_id, ts);
    assert!(!id.contains('-')); // No UUID dashes
    assert!(id.starts_with("slack_"));
}

#[test]
fn inbound_thread_ts_prefers_explicit_thread_ts() {
    let msg = json(
        r#"{ "ts": "123.002", "thread_ts": "123.001" }"#,
    );

    let thread_ts = SlackChannel::inbound_thread_ts(&msg, "123.002");
    assert_eq!(thread_ts.as_deref(), Some("123.001"));
}

#[test]
fn inbound_thread_ts_falls_back_to_ts() {
    let msg = json(
        r#"{ "ts": "123.001" }"#,
    );

    let thread_ts = SlackChannel::inbound_thread_ts(&msg, "123.001");
    assert_eq!(thread_ts.as_deref(), Some("123.001"));
}

#[test]
fn inbound_thread_ts_none_when_ts_missing() {
    let msg = json(
        r#"{}"#,
    );

    let thread_ts = SlackChannel::inbound_thread_ts(&msg, "");
    assert_eq!(thread_ts, None);
}

#[test]
fn ensure_poll_cursor_bootstraps_new_channel() {
    let mut cursors = CursorTable::new();
    let now_ts = "1700000000.123456";

    let cursor = SlackChannel::ensure_poll_cursor(&mut cursors, "C123", now_ts);
    assert_eq!(cursor, now_ts);
    assert_eq!(cursors.get("C123"), Some(now_ts));
}

#[test]
fn ensure_poll_cursor_keeps_existing_cursor() {
    let mut cursors = CursorTable::new();
    cursors.insert("C123", "1700000000.000001");
    let cursor = SlackChannel::ensure_poll_cursor(&mut cursors, "C123", "9999999999.999999");

    assert_eq!(cursor, "1700000000.000001");
    assert_eq!(
        cursors.get("C123"),
        Some("1700000000.000001")
    );
}

#[test]
fn parse_retry_after_value_accepts_integer_seconds() {
    assert_eq!(SlackChannel::parse_retry_after_value("30"), Some(30));
}

#[test]
fn parse_retry_after_value_accepts_decimal_seconds() {
    assert_eq!(SlackChannel::parse_retry_after_value("2.9"), Some(2));
}

#[test]
fn parse_retry_after_value_rejects_non_numeric_values() {
    assert_eq!(SlackChannel::parse_retry_after_value("later"), None);
    assert_eq!(SlackChannel::parse_retry_after_value(""), None);
}

#[test]
fn parse_retry_after_secs_reads_header_value() {
    let mut headers = HeaderMap::new();
    headers.insert(reqwest::header::RETRY_AFTER, "45".parse().unwrap());
    assert_eq!(SlackChannel::parse_retry_after_secs(&headers), Some(45));
}

#[test]
fn compute_retry_delay_applies_backoff_and_jitter_with_cap() {
    let delay = SlackChannel::compute_retry_delay(30, 3, 250);
    let expected = Duration::from_secs(120) + Duration::from_millis(250);
    assert_eq!(delay.nanos, expected.as_nanos());
}

#[test]
fn supports_draft_updates_off_by_default() {
    let ch = SlackChannel::new("xoxb-fake".into(), None, None, vec![], vec![]);
    assert!(!ch.supports_draft_updates());
}

#[test]
fn supports_draft_updates_enabled_when_partial() {
    let ch = SlackChannel::new("xoxb-fake".into(), None, None, vec![], vec![])
        .with_streaming(StreamMode::Partial, 1000);
    assert!(ch.supports_draft_updates());
}

#[test]
fn with_streaming_configures_fields() {
    let ch = SlackChannel::new("xoxb-fake".into(), None, None, vec![], vec![])
        .with_streaming(StreamMode::Partial, 500);
    assert_eq!(ch.stream_mode, StreamMode::Partial);
    assert_eq!(ch.draft_update_interval_ms, 500);
}
