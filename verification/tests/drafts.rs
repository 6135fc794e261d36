use slack_channel::api::{request_body, ApiError};
use slack_channel::channel::{SlackChannel, SLACK_MAX_MESSAGE_LENGTH};
use slack_channel::clock::Span;
use slack_channel::drafts::{clip, fits, on_finalize_reply, Finalization};
use slack_channel::json::parse_json;
use slack_channel::messages::{SendMessage, StreamMode};
use slack_channel::mrkdwn::document::markdown_to_slack_mrkdwn;

fn streaming(interval_ms: u64) -> SlackChannel {
    SlackChannel::new("xoxb-fake".into(), None, None, vec![], vec![])
        .with_streaming(StreamMode::Partial, interval_ms)
}

fn field(members: &[(String, String)], name: &str) -> Option<String> {
    members.iter().find(|m| m.0 == name).map(|m| m.1.clone())
}

#[test]
fn send_draft_returns_none_when_stream_mode_off() {
    let ch = SlackChannel::new("xoxb-fake".into(), None, None, vec![], vec![]);
    let id = ch.send_draft(&SendMessage::new("draft", "C123"));
    assert!(id.is_none());
}

#[test]
fn update_draft_rate_limit_short_circuits() {
    let mut ch = streaming(60_000);
    ch.last_draft_edit.insert("C123", Span::from_secs(100));
    let now = Span::from_secs(100);
    assert!(ch.update_draft("C123", "1234.5678", "text", now).is_none());
    assert!(ch.update_draft("C123", "1234.5678", "text", Span::from_secs(159)).is_none());
    assert!(ch.update_draft("C123", "1234.5678", "text", Span::from_secs(160)).is_some());
    assert!(ch.update_draft("C999", "1234.5678", "text", now).is_some());
}

#[test]
fn update_draft_utf8_truncation_is_safe() {
    let ch = streaming(0);
    let long_text = "\u{1F600}".repeat(SLACK_MAX_MESSAGE_LENGTH + 20);
    let members = ch
        .update_draft("C123", "1234.5678", &long_text, Span::from_secs(0))
        .unwrap();
    let text = field(&members, "text").unwrap();
    assert_eq!(text.len(), SLACK_MAX_MESSAGE_LENGTH);
    assert!(long_text.starts_with(&text));
}

#[test]
fn text_is_cut_at_a_character() {
    assert_eq!(clip("aé€\u{1F600}", 0), "");
    assert_eq!(clip("aé€\u{1F600}", 2), "a");
    assert_eq!(clip("aé€\u{1F600}", 3), "aé");
    assert_eq!(clip("aé€\u{1F600}", 9), "aé€");
    assert_eq!(clip("aé€\u{1F600}", 10), "aé€\u{1F600}");
    assert!(fits("aé€\u{1F600}", 10));
    assert!(!fits("aé€\u{1F600}", 9));
    assert!(fits("", 0));
}

#[test]
fn messages_are_converted_and_addressed() {
    let ch = SlackChannel::new("t".into(), None, None, vec![], vec![]);
    let mut message = SendMessage::new("**hi**", "C1");
    let members = ch.send(&message);
    assert_eq!(members.len(), 2);
    assert_eq!(field(&members, "channel").as_deref(), Some("C1"));
    assert_eq!(field(&members, "text").as_deref(), Some("*hi*"));
    message.thread_ts = Some("1.5".to_string());
    let members = ch.send(&message);
    assert_eq!(field(&members, "thread_ts").as_deref(), Some("1.5"));
    let body = parse_json(&request_body(&members)).unwrap();
    assert_eq!(body.get_str("text"), Some("*hi*"));
    assert_eq!(body.get_str("thread_ts"), Some("1.5"));
}

#[test]
fn drafts_start_with_their_text_or_dots() {
    let ch = streaming(0);
    let members = ch.send_draft(&SendMessage::new("", "C1")).unwrap();
    assert_eq!(field(&members, "text").as_deref(), Some("..."));
    let members = ch.send_draft(&SendMessage::new("**raw**", "C1")).unwrap();
    assert_eq!(field(&members, "text").as_deref(), Some("**raw**"));
    assert_eq!(field(&members, "thread_ts"), None);
}

#[test]
fn a_posted_draft_is_remembered() {
    let mut ch = streaming(1000);
    let now = Span::from_secs(5);
    let ts = ch.on_draft_reply("C1", 200, r#"{"ok": true, "ts": "9.5"}"#, now);
    assert_eq!(ts.unwrap().as_deref(), Some("9.5"));
    assert_eq!(ch.last_draft_edit.get("C1"), Some(now));
    let ts = ch.on_draft_reply("C2", 200, r#"{"ok": true}"#, now);
    assert_eq!(ts.unwrap(), None);
    assert_eq!(ch.last_draft_edit.get("C2"), None);
    assert!(matches!(
        ch.on_draft_reply("C2", 500, r#"{"ts": "1"}"#, now),
        Err(ApiError::Status(500))
    ));
    assert!(matches!(
        ch.on_draft_reply("C2", 200, r#"{"ok": false, "ts": "1"}"#, now),
        Err(ApiError::Refused(_))
    ));
    assert_eq!(ch.last_draft_edit.get("C2"), None);
}

#[test]
fn updates_that_succeed_are_remembered() {
    let mut ch = streaming(1000);
    ch.on_update_reply("C1", 500, Span::from_secs(5));
    assert_eq!(ch.last_draft_edit.get("C1"), None);
    ch.on_update_reply("C1", 200, Span::from_secs(5));
    assert_eq!(ch.last_draft_edit.get("C1"), Some(Span::from_secs(5)));
    let members = ch.update_draft("C1", "9.5", "text", Span::from_secs(6)).unwrap();
    assert_eq!(field(&members, "channel").as_deref(), Some("C1"));
    assert_eq!(field(&members, "ts").as_deref(), Some("9.5"));
    assert_eq!(field(&members, "text").as_deref(), Some("text"));
}

#[test]
fn short_drafts_are_made_final_in_place() {
    let mut ch = streaming(1000);
    ch.last_draft_edit.insert("C1", Span::from_secs(5));
    let (how, message) = ch.finalize_draft("C1", "9.5", "**done**");
    match how {
        Finalization::Update(members) => {
            assert_eq!(field(&members, "text").as_deref(), Some("*done*"));
            assert_eq!(field(&members, "ts").as_deref(), Some("9.5"));
        }
        Finalization::Replace => panic!("replaced"),
    }
    assert_eq!(message.content, "*done*");
    assert_eq!(message.recipient, "C1");
    assert_eq!(message.thread_ts, None);
    assert_eq!(ch.last_draft_edit.get("C1"), None);
    assert!(on_finalize_reply(200, r#"{"ok": true}"#));
    assert!(on_finalize_reply(200, "no json"));
    assert!(!on_finalize_reply(200, r#"{"ok": false}"#));
    assert!(!on_finalize_reply(500, r#"{"ok": true}"#));
}

#[test]
fn long_drafts_are_replaced() {
    let mut ch = streaming(1000);
    let (how, message) = ch.finalize_draft("C1", "9.5", &"x".repeat(SLACK_MAX_MESSAGE_LENGTH + 1));
    assert!(matches!(how, Finalization::Replace));
    assert_eq!(message.content.len(), SLACK_MAX_MESSAGE_LENGTH + 1);
    let (how, _) = ch.finalize_draft("C1", "9.5", &"x".repeat(SLACK_MAX_MESSAGE_LENGTH));
    assert!(matches!(how, Finalization::Update(_)));
}

#[test]
fn cancelled_drafts_are_deleted() {
    let mut ch = streaming(1000);
    ch.last_draft_edit.insert("C1", Span::from_secs(5));
    let members = ch.cancel_draft("C1", "9.5");
    assert_eq!(members.len(), 2);
    assert_eq!(field(&members, "ts").as_deref(), Some("9.5"));
    assert_eq!(ch.last_draft_edit.get("C1"), None);
}

#[test]
fn tables_in_code_blocks_are_kept() {
    let input = "```\n| a | b |\n|---|---|\n| 1 | 2 |\n```";
    assert_eq!(markdown_to_slack_mrkdwn(input), input);
    let input = "~~~\n| a |\n| b |\n~~~\n| c | d |\n| 1 | 2 |";
    assert_eq!(
        markdown_to_slack_mrkdwn(input),
        "```\n| a |\n| b |\n```\n*c* | *d*\n• 1 | 2"
    );
}

#[test]
fn literal_backticks_open_no_code_block() {
    let input = "\\`\\`\\`\n```\na <b> **c**\n```";
    assert_eq!(markdown_to_slack_mrkdwn(input), "```\n```\na <b> **c**\n```");
}

#[test]
fn headers_are_written_in_upper_case() {
    assert_eq!(markdown_to_slack_mrkdwn("# straße"), "*STRASSE*");
    assert_eq!(markdown_to_slack_mrkdwn("#### Straße"), "*Straße*");
    assert_eq!(markdown_to_slack_mrkdwn("#hashtag"), "#hashtag");
}

#[test]
fn slack_markup_passes() {
    for text in [
        "plain text, with punctuation: yes!",
        "_italic_ and ~struck~",
        "<https://example.com|a link> and <@U1> and <!here>",
        "> a quote",
        "`a < b && **c**`",
        "two\nlines",
        "```\n**code** & <b>\n```",
    ] {
        assert_eq!(markdown_to_slack_mrkdwn(text), text);
    }
    assert_eq!(markdown_to_slack_mrkdwn("text\n\n"), "text");
}

#[test]
fn constructs_become_slack_markup() {
    assert_eq!(markdown_to_slack_mrkdwn("***t***"), "*_t_*");
    assert_eq!(markdown_to_slack_mrkdwn("__t__"), "*t*");
    assert_eq!(markdown_to_slack_mrkdwn("~~t~~"), "~t~");
    assert_eq!(markdown_to_slack_mrkdwn("12. item"), "12.  item");
    assert_eq!(markdown_to_slack_mrkdwn("* item"), "• item");
    assert_eq!(markdown_to_slack_mrkdwn("![t](https://a.b/c)"), "<https://a.b/c>");
    assert_eq!(markdown_to_slack_mrkdwn("see `a_b **c** <d>` there"), "see `a_b **c** <d>` there");
    assert_eq!(markdown_to_slack_mrkdwn("- - -"), "───────────────────────");
    assert_eq!(
        markdown_to_slack_mrkdwn("see https://a.b/c?d=e now"),
        "see <https://a.b/c?d=e> now"
    );
}
