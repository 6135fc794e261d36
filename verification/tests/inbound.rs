use slack_channel::channel::SlackChannel;
use slack_channel::clock::Span;
use slack_channel::inbound::Inbound;
use slack_channel::json::{parse_json, Json};
use slack_channel::polling::{bot_user_id, Poller};
use slack_channel::sockets::{ack_of, on_frame, EnvelopeStep, FrameAction, SocketFrame};
use slack_channel::tables::CursorTable;
use slack_channel::users::SenderLookup;

fn json(text: &str) -> Json {
    parse_json(text).unwrap()
}

fn open_channel() -> SlackChannel {
    SlackChannel::new("xoxb-fake".into(), None, None, vec![], vec!["*".into()])
}

fn mention_channel() -> SlackChannel {
    open_channel().with_group_reply_policy(true, vec!["U_FREE".into()])
}

fn event(channel: &str, user: &str, ts: &str, text: &str) -> Json {
    json(&format!(
        r#"{{"envelope_id": "e1", "type": "events_api", "payload": {{"event": {{
            "type": "message", "channel": "{channel}", "user": "{user}", "ts": "{ts}",
            "text": "{text}"}}}}}}"#
    ))
}

fn deliver(ch: &SlackChannel, envelope: &Json, cursors: &mut CursorTable) -> Option<Inbound> {
    match ch.receive_envelope(envelope, "U_BOT", &None, cursors) {
        EnvelopeStep::Deliver(m) => Some(m),
        _ => None,
    }
}

#[test]
fn frames_are_told_apart() {
    assert!(matches!(
        on_frame(&SocketFrame::Text("{\"type\": \"hello\"}".into())),
        FrameAction::Read(_)
    ));
    assert!(matches!(on_frame(&SocketFrame::Text("nonsense".into())), FrameAction::Skip));
    assert!(matches!(on_frame(&SocketFrame::Ping), FrameAction::Pong));
    assert!(matches!(on_frame(&SocketFrame::Close), FrameAction::Reconnect));
    assert!(matches!(on_frame(&SocketFrame::Other), FrameAction::Skip));
    assert!(matches!(on_frame(&SocketFrame::Failed), FrameAction::Reconnect));
}

#[test]
fn envelopes_with_an_identifier_are_acknowledged() {
    let ack = ack_of(&json(r#"{"envelope_id": "a\"b"}"#)).unwrap();
    assert_eq!(ack, r#"{"envelope_id":"a\"b"}"#);
    assert_eq!(ack_of(&json(r#"{"type": "hello"}"#)), None);
    assert_eq!(ack_of(&json(r#"{"envelope_id": 5}"#)), None);
}

#[test]
fn disconnect_leads_to_a_new_connection() {
    let mut cursors = CursorTable::new();
    let ch = open_channel();
    assert!(matches!(
        ch.receive_envelope(&json(r#"{"type": "disconnect"}"#), "U_BOT", &None, &mut cursors),
        EnvelopeStep::Reconnect
    ));
    assert!(matches!(
        ch.receive_envelope(&json(r#"{"type": "hello"}"#), "U_BOT", &None, &mut cursors),
        EnvelopeStep::Skip
    ));
    assert!(matches!(
        ch.receive_envelope(&json(r#"{"type": "events_api"}"#), "U_BOT", &None, &mut cursors),
        EnvelopeStep::Skip
    ));
}

#[test]
fn a_message_is_delivered_once() {
    let ch = open_channel();
    let mut cursors = CursorTable::new();
    let envelope = event("C1", "U1", "100.000001", " hello ");
    let m = deliver(&ch, &envelope, &mut cursors).unwrap();
    assert_eq!(m.content, "hello");
    assert_eq!(m.user, "U1");
    assert_eq!(m.thread_ts.as_deref(), Some("100.000001"));
    assert_eq!(cursors.get("C1"), Some("100.000001"));
    assert!(deliver(&ch, &envelope, &mut cursors).is_none());
    assert!(deliver(&ch, &event("C1", "U1", "100.000000", "old"), &mut cursors).is_none());
    assert!(deliver(&ch, &event("C2", "U1", "100.000000", "other"), &mut cursors).is_some());
    assert!(deliver(&ch, &event("C1", "U1", "100.000002", "new"), &mut cursors).is_some());
}

#[test]
fn a_delivered_message_is_handed_on() {
    let ch = open_channel();
    let mut cursors = CursorTable::new();
    let m = deliver(&ch, &event("C1", "U1", "1.5", "hi"), &mut cursors).unwrap();
    let msg = m.into_message("Ann".to_string(), 77);
    assert_eq!(msg.id, "slack_C1_1.5");
    assert_eq!(msg.sender, "Ann");
    assert_eq!(msg.reply_target, "C1");
    assert_eq!(msg.content, "hi");
    assert_eq!(msg.channel, "slack");
    assert_eq!(msg.timestamp, 77);
    assert_eq!(msg.thread_ts.as_deref(), Some("1.5"));
}

#[test]
fn messages_that_break_a_rule_are_ignored() {
    let ch = SlackChannel::new("t".into(), None, None, vec![], vec!["U1".into()]);
    let mut cursors = CursorTable::new();
    for envelope in [
        event("C1", "U2", "1.0", "not allowed"),
        event("C1", "", "1.0", "no user"),
        event("", "U1", "1.0", "no channel"),
        event("C1", "U1", "", "no timestamp"),
        event("C1", "U1", "1.0", ""),
        event("C1", "U1", "1.0", "   "),
        json(
            r#"{"type": "events_api", "payload": {"event": {"type": "reaction_added",
                "channel": "C1", "user": "U1", "ts": "1.0", "text": "x"}}}"#,
        ),
        json(
            r#"{"type": "events_api", "payload": {"event": {"type": "message",
                "subtype": "channel_join", "channel": "C1", "user": "U1", "ts": "1.0",
                "text": "x"}}}"#,
        ),
    ] {
        assert!(deliver(&ch, &envelope, &mut cursors).is_none());
    }
    assert_eq!(cursors.get("C1"), None);
    // The bot does not hear itself, though everyone is allowed.
    assert!(deliver(&open_channel(), &event("C1", "U_BOT", "1.0", "x"), &mut cursors).is_none());
}

#[test]
fn only_channels_of_the_scope_are_heard() {
    let ch = open_channel();
    let scope = Some(vec!["C1".to_string()]);
    let mut cursors = CursorTable::new();
    let inside = event("C1", "U1", "1.0", "x");
    let outside = event("C2", "U1", "1.0", "x");
    assert!(matches!(
        ch.receive_envelope(&inside, "U_BOT", &scope, &mut cursors),
        EnvelopeStep::Deliver(_)
    ));
    assert!(matches!(
        ch.receive_envelope(&outside, "U_BOT", &scope, &mut cursors),
        EnvelopeStep::Skip
    ));
}

#[test]
fn mentions_are_needed_in_groups() {
    let ch = mention_channel();
    let mut cursors = CursorTable::new();
    assert!(deliver(&ch, &event("C1", "U1", "1.0", "hello"), &mut cursors).is_none());
    let m = deliver(&ch, &event("C1", "U1", "2.0", "<@U_BOT> do <@U_BOT>it"), &mut cursors).unwrap();
    assert_eq!(m.content, "do  it");
    assert!(deliver(&ch, &event("C1", "U1", "3.0", "<@U_BOT>"), &mut cursors).is_none());
    assert!(deliver(&ch, &event("C1", "U_FREE", "4.0", "hello"), &mut cursors).is_some());
    assert!(deliver(&ch, &event("D1", "U1", "5.0", "hello"), &mut cursors).is_some());
    assert!(!ch.is_mention_needed("D1", "U1"));
    assert!(ch.is_mention_needed("G1", "U1"));
}

#[test]
fn pages_are_heard_from_the_oldest_message() {
    let ch = open_channel();
    let mut cursors = CursorTable::new();
    let page = json(
        r#"{"messages": [
            {"user": "U1", "ts": "5.0", "text": "third"},
            {"user": "U1", "ts": "4.0", "text": "joined", "subtype": "channel_join"},
            {"ts": "3.0", "text": "second", "thread_ts": "0.5"},
            {"user": "U_BOT", "ts": "2.5", "text": "own"},
            {"user": "U1", "ts": "2.0", "text": "first"}]}"#,
    );
    let heard = ch.receive_history(&page, "C1", "U_BOT", &mut cursors);
    let texts: Vec<&str> = heard.iter().map(|m| m.content.as_str()).collect();
    assert_eq!(texts, vec!["first", "second", "third"]);
    assert_eq!(heard[1].user, "unknown");
    assert_eq!(heard[1].thread_ts.as_deref(), Some("0.5"));
    assert_eq!(cursors.get("C1"), Some("5.0"));
    assert!(ch.receive_history(&page, "C1", "U_BOT", &mut cursors).is_empty());
    assert!(ch.receive_history(&json("{}"), "C1", "U_BOT", &mut cursors).is_empty());
}

#[test]
fn unknown_users_have_to_be_allowed() {
    let page = json(r#"{"messages": [{"ts": "3.0", "text": "x"}]}"#);
    let mut cursors = CursorTable::new();
    let ch = SlackChannel::new("t".into(), None, None, vec![], vec!["U1".into()]);
    assert!(ch.receive_history(&page, "C1", "U_BOT", &mut cursors).is_empty());
    let ch = SlackChannel::new("t".into(), None, None, vec![], vec!["unknown".into()]);
    assert_eq!(ch.receive_history(&page, "C1", "U_BOT", &mut cursors).len(), 1);
}

#[test]
fn polling_starts_at_the_present() {
    let ch = open_channel();
    let mut poller = Poller::new(None, "U_BOT".into(), Span::from_secs(0));
    let query = poller.start_channel("C1", "50.0");
    assert_eq!(query[0], ("channel".to_string(), "C1".to_string()));
    assert_eq!(query[1], ("limit".to_string(), "10".to_string()));
    assert_eq!(query[2], ("oldest".to_string(), "50.0".to_string()));
    let page = json(
        r#"{"messages": [{"user": "U1", "ts": "51.0", "text": "new"},
            {"user": "U1", "ts": "49.0", "text": "old"}]}"#,
    );
    let heard = poller.on_history(&ch, "C1", &page);
    assert_eq!(heard.len(), 1);
    assert_eq!(heard[0].content, "new");
    assert_eq!(poller.start_channel("C1", "99.0")[2].1, "51.0");
}

#[test]
fn channels_are_discovered_each_minute() {
    let mut poller = Poller::new(None, String::new(), Span::from_secs(0));
    assert!(poller.needs_discovery(Span::from_secs(1)));
    poller.on_discovery(Some(vec!["C1".into()]), Span::from_secs(1));
    assert!(!poller.needs_discovery(Span::from_secs(60)));
    assert!(poller.needs_discovery(Span::from_secs(61)));
    poller.on_discovery(None, Span::from_secs(61));
    assert_eq!(poller.targets(), vec!["C1".to_string()]);
    assert!(!poller.needs_discovery(Span::from_secs(62)));
    let scoped = Poller::new(Some(vec!["C7".into()]), String::new(), Span::from_secs(0));
    assert!(!scoped.needs_discovery(Span::from_secs(1000)));
    assert_eq!(scoped.targets(), vec!["C7".to_string()]);
}

#[test]
fn bot_user_is_read_from_the_reply() {
    assert_eq!(bot_user_id(r#"{"ok": true, "user_id": "U9"}"#), "U9");
    assert_eq!(bot_user_id("{}"), "");
    assert_eq!(bot_user_id("oops"), "");
}

#[test]
fn senders_are_looked_up_and_cached() {
    let mut ch = open_channel();
    let start = Span::from_secs(10);
    match ch.lookup_sender(" U1 ", start) {
        SenderLookup::Fetch(id) => assert_eq!(id, "U1"),
        _ => panic!("known"),
    }
    let name = SlackChannel::fetch_sender_display_name(
        200,
        r#"{"ok": true, "user": {"real_name": " Ann ", "profile": {}}}"#,
    );
    assert_eq!(ch.resolve_sender_identity("U1", name, start), "Ann");
    match ch.lookup_sender("U1", Span::from_secs(10 + 21_600)) {
        SenderLookup::Known(n) => assert_eq!(n, "Ann"),
        _ => panic!("unknown"),
    }
    match ch.lookup_sender("U1", Span::from_secs(11 + 21_600)) {
        SenderLookup::Fetch(_) => {}
        _ => panic!("known"),
    }
    assert!(ch.user_display_name_cache.get("U1").is_none());
    assert_eq!(ch.resolve_sender_identity("U2", None, start), "U2");
    match ch.lookup_sender("  ", start) {
        SenderLookup::Known(n) => assert_eq!(n, ""),
        _ => panic!("unknown"),
    }
}

#[test]
fn names_come_from_good_replies_only() {
    let body = r#"{"ok": false, "user": {"name": "x"}}"#;
    assert_eq!(SlackChannel::fetch_sender_display_name(200, body), None);
    let body = r#"{"ok": true, "user": {"name": "x"}}"#;
    assert_eq!(SlackChannel::fetch_sender_display_name(500, body), None);
    assert_eq!(SlackChannel::fetch_sender_display_name(200, body).as_deref(), Some("x"));
    assert_eq!(SlackChannel::fetch_sender_display_name(200, "{}"), None);
    let body = r#"{"user": {"real_name": "R", "name": "n", "profile": {
        "display_name": "", "display_name_normalized": " ", "real_name_normalized": "RN"}}}"#;
    assert_eq!(SlackChannel::fetch_sender_display_name(200, body).as_deref(), Some("RN"));
}

#[test]
fn scope_names_each_channel_once() {
    let ch = SlackChannel::new(
        "t".into(),
        None,
        Some(" C9 ".into()),
        vec![" C1 ".into(), "*".into(), "".into(), "C1".into(), "C0".into()],
        vec![],
    );
    assert_eq!(ch.scoped_channel_ids(), Some(vec!["C1".to_string(), "C0".to_string()]));
    assert_eq!(ch.configured_channel_id().as_deref(), Some("C9"));
    let ch = SlackChannel::new("t".into(), None, Some("*".into()), vec![" * ".into()], vec![]);
    assert_eq!(ch.scoped_channel_ids(), None);
}

#[test]
fn group_policy_knows_the_wildcard() {
    let ch = open_channel().with_group_reply_policy(true, vec!["*".into(), "  ".into()]);
    assert_eq!(ch.group_reply_allowed_sender_ids, vec!["*".to_string()]);
    assert!(ch.is_group_sender_trigger_enabled(" anyone "));
    assert!(!ch.is_group_sender_trigger_enabled("   "));
}

#[test]
fn all_mentions_are_removed() {
    assert_eq!(SlackChannel::strip_bot_mentions("<@<@B>B> hi <@B>", "B"), "<@ B> hi");
    assert_eq!(SlackChannel::strip_bot_mentions(" a ", ""), "a");
    assert!(!SlackChannel::contains_bot_mention("<@>", ""));
    assert!(!SlackChannel::contains_bot_mention("<@BC>", "B"));
}
