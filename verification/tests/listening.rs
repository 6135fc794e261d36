use slack_channel::channel::SlackChannel;
use slack_channel::clock::Span;
use slack_channel::inbound::Inbound;
use slack_channel::json::{parse_json, Json};
use slack_channel::rounds::{PollAction, PollEvent, PollSession};
use slack_channel::sessions::{Notice, SocketAction, SocketEvent, SocketPhase, SocketSession};
use slack_channel::sockets::SocketFrame;

fn channel(allowed: &str) -> SlackChannel {
    SlackChannel::new("xoxb-fake".into(), None, None, vec![], vec![allowed.into()])
}

fn message(id: &str, channel: &str, user: &str, ts: &str) -> SocketEvent {
    SocketEvent::Arrived(SocketFrame::Text(format!(
        r#"{{{id}"type": "events_api", "payload": {{"event": {{"type": "message",
            "channel": "{channel}", "user": "{user}", "ts": "{ts}", "text": "hi"}}}}}}"#
    )))
}

fn text(body: &str) -> SocketEvent {
    SocketEvent::Arrived(SocketFrame::Text(body.into()))
}

/// Runs a session over events and collects what it hands on.
fn listen(ch: &SlackChannel, session: SocketSession, events: Vec<SocketEvent>) -> (SocketSession, Vec<Inbound>) {
    let mut session = session;
    let mut handed = Vec::new();
    for event in events {
        let (next, action) = session.step(ch, event);
        session = next;
        if let SocketAction::Deliver(m) = action {
            handed.push(m);
            session = session.step(ch, SocketEvent::Taken(true)).0;
        }
    }
    (session, handed)
}

fn connected(ch: &SlackChannel) -> SocketSession {
    let session = SocketSession::new("U_BOT".into(), None);
    let (session, action) = session.step(ch, SocketEvent::Opened(true));
    assert!(matches!(action, SocketAction::Connect));
    let (session, action) = session.step(ch, SocketEvent::Connected(true));
    assert!(matches!(action, SocketAction::Read(Notice::Nothing)));
    session
}

#[test]
fn failures_to_connect_lead_to_another_try() {
    let ch = channel("*");
    let session = SocketSession::new("U_BOT".into(), None);
    let (session, action) = session.step(&ch, SocketEvent::Opened(false));
    assert!(matches!(action, SocketAction::Pause(Notice::Nothing)));
    let (session, action) = session.step(&ch, SocketEvent::Paused);
    assert!(matches!(action, SocketAction::Open));
    let (session, _) = session.step(&ch, SocketEvent::Opened(true));
    let (session, action) = session.step(&ch, SocketEvent::Connected(false));
    assert!(matches!(action, SocketAction::Pause(Notice::Nothing)));
    assert!(matches!(session.phase, SocketPhase::Pausing));
}

#[test]
fn a_ping_is_answered() {
    let ch = channel("*");
    let (session, action) = connected(&ch).step(&ch, SocketEvent::Arrived(SocketFrame::Ping));
    assert!(matches!(action, SocketAction::Pong));
    let (_, action) = session.step(&ch, SocketEvent::Sent(true));
    assert!(matches!(action, SocketAction::Read(Notice::Nothing)));
    let (session, _) = connected(&ch).step(&ch, SocketEvent::Arrived(SocketFrame::Ping));
    let (_, action) = session.step(&ch, SocketEvent::Sent(false));
    assert!(matches!(action, SocketAction::Pause(Notice::Nothing)));
}

#[test]
fn an_envelope_is_acknowledged_before_it_is_handled() {
    let ch = channel("*");
    let arrival = || message(r#""envelope_id": "e7", "#, "C1", "U1", "5.1");
    let (session, action) = connected(&ch).step(&ch, arrival());
    match action {
        SocketAction::Ack(t) => assert_eq!(t, r#"{"envelope_id":"e7"}"#),
        _ => panic!("not acknowledged"),
    }
    let (session, action) = session.step(&ch, SocketEvent::Sent(true));
    match action {
        SocketAction::Deliver(m) => assert_eq!((m.channel_id.as_str(), m.ts.as_str()), ("C1", "5.1")),
        _ => panic!("not handed on"),
    }
    assert_eq!(session.cursors.get("C1"), Some("5.1"));
    // An acknowledgement that cannot be sent leaves the connection and the message.
    let (session, _) = connected(&ch).step(&ch, arrival());
    let (session, action) = session.step(&ch, SocketEvent::Sent(false));
    assert!(matches!(action, SocketAction::Pause(Notice::Nothing)));
    assert_eq!(session.cursors.get("C1"), None);
}

#[test]
fn what_happens_on_the_connection_is_noticed() {
    let ch = channel("U_GOOD");
    let (_, action) = connected(&ch).step(&ch, text("nonsense"));
    assert!(matches!(action, SocketAction::Read(Notice::NotJson)));
    let (_, action) = connected(&ch).step(&ch, SocketEvent::Arrived(SocketFrame::Other));
    assert!(matches!(action, SocketAction::Read(Notice::Nothing)));
    let (_, action) = connected(&ch).step(&ch, SocketEvent::Arrived(SocketFrame::Close));
    assert!(matches!(action, SocketAction::Pause(Notice::Closed)));
    let (_, action) = connected(&ch).step(&ch, SocketEvent::Arrived(SocketFrame::Failed));
    assert!(matches!(action, SocketAction::Pause(Notice::Nothing)));
    let (_, action) = connected(&ch).step(&ch, SocketEvent::Ended);
    assert!(matches!(action, SocketAction::Pause(Notice::Nothing)));
    let (_, action) = connected(&ch).step(&ch, text(r#"{"type": "disconnect"}"#));
    assert!(matches!(action, SocketAction::Pause(Notice::Disconnected)));
    let (_, action) = connected(&ch).step(&ch, message("", "C1", "U_BAD", "1.0"));
    match action {
        SocketAction::Read(Notice::Refused(user)) => assert_eq!(user, "U_BAD"),
        _ => panic!("not refused"),
    }
    let (_, action) = connected(&ch).step(&ch, message("", "C1", "U_BOT", "1.0"));
    assert!(matches!(action, SocketAction::Read(Notice::Nothing)));
}

#[test]
fn timestamps_rise_over_connections() {
    let ch = channel("*");
    let (_, handed) = listen(
        &ch,
        connected(&ch),
        vec![
            message("", "C1", "U1", "10.5"),
            message("", "C2", "U1", "3.0"),
            message("", "C1", "U1", "10.5"),
            SocketEvent::Ended,
            SocketEvent::Paused,
            SocketEvent::Opened(true),
            SocketEvent::Connected(true),
            message("", "C1", "U1", "10.4"),
            message("", "C2", "U1", "3.0"),
            message("", "C1", "U2", "11.0"),
            message("", "C2", "U2", "4.0"),
        ],
    );
    let seen: Vec<(&str, &str)> =
        handed.iter().map(|m| (m.channel_id.as_str(), m.ts.as_str())).collect();
    assert_eq!(seen, [("C1", "10.5"), ("C2", "3.0"), ("C1", "11.0"), ("C2", "4.0")]);
}

#[test]
fn a_session_stops_when_nobody_listens() {
    let ch = channel("*");
    let (session, action) = connected(&ch).step(&ch, message("", "C1", "U1", "1.0"));
    assert!(matches!(action, SocketAction::Deliver(_)));
    let (session, action) = session.step(&ch, SocketEvent::Taken(false));
    assert!(matches!(action, SocketAction::Stop));
    let (_, action) = session.step(&ch, SocketEvent::Opened(true));
    assert!(matches!(action, SocketAction::Stop));
}

fn page(messages: &[(&str, &str)]) -> PollEvent {
    let items: Vec<String> = messages
        .iter()
        .map(|(user, ts)| format!(r#"{{"user": "{user}", "ts": "{ts}", "text": "hi"}}"#))
        .collect();
    PollEvent::Fetched(parse_json(&format!(r#"{{"messages": [{}]}}"#, items.join(","))))
}

/// Runs a round of polling, in which each channel gets a page, and collects what
/// is handed on.
fn poll_round(
    ch: &SlackChannel,
    session: &mut PollSession,
    now_ts: &str,
    pages: &[&[(&str, &str)]],
) -> Vec<Inbound> {
    let now = Span::from_secs(1);
    let mut handed = Vec::new();
    let mut pages = pages.iter();
    let mut action = session.step(ch, PollEvent::Slept, now, now_ts);
    loop {
        action = match action {
            PollAction::Sleep => return handed,
            PollAction::Fetch { .. } => session.step(ch, page(pages.next().unwrap()), now, now_ts),
            PollAction::Deliver(m) => {
                handed.push(m);
                session.step(ch, PollEvent::Taken(true), now, now_ts)
            }
            _ => panic!("unexpected action"),
        };
    }
}

fn seen(handed: &[Inbound]) -> Vec<(&str, &str)> {
    handed.iter().map(|m| (m.channel_id.as_str(), m.ts.as_str())).collect()
}

#[test]
fn timestamps_rise_over_pages() {
    let ch = channel("*");
    let scope = Some(vec!["C1".to_string(), "C2".to_string()]);
    let mut session = PollSession::new(scope, "U_BOT".into(), Span::from_secs(0));
    let first = poll_round(
        &ch,
        &mut session,
        "100.000000",
        &[
            &[("U1", "102.0"), ("U1", "101.0"), ("U1", "098.0")],
            &[("U1", "100.5"), ("U_BOT", "100.4")],
        ],
    );
    assert_eq!(seen(&first), [("C1", "101.0"), ("C1", "102.0"), ("C2", "100.5")]);
    let second = poll_round(
        &ch,
        &mut session,
        "200.000000",
        &[&[("U1", "103.0"), ("U1", "102.0"), ("U1", "101.0")], &[("U1", "100.5")]],
    );
    assert_eq!(seen(&second), [("C1", "103.0")]);
}

#[test]
fn a_channel_is_polled_from_the_present_on() {
    let ch = channel("*");
    let mut session =
        PollSession::new(Some(vec!["C1".into()]), "U_BOT".into(), Span::from_secs(0));
    let now = Span::from_secs(3);
    match session.step(&ch, PollEvent::Slept, now, "100.000000") {
        PollAction::Fetch { channel_id, query, first } => {
            assert_eq!(channel_id, "C1");
            assert!(first);
            let expected = [("channel", "C1"), ("limit", "10"), ("oldest", "100.000000")];
            let query: Vec<(&str, &str)> =
                query.iter().map(|(k, v)| (k.as_str(), v.as_str())).collect();
            assert_eq!(query, expected);
        }
        _ => panic!("not fetched"),
    }
    // A failed request passes over the channel and keeps the cursor.
    assert!(matches!(
        session.step(&ch, PollEvent::Fetched(None), now, "101.0"),
        PollAction::Sleep
    ));
    match session.step(&ch, PollEvent::Slept, now, "103.0") {
        PollAction::Fetch { query, first, .. } => {
            assert!(!first);
            assert_eq!(query[2].1, "100.000000");
        }
        _ => panic!("not fetched"),
    }
}

#[test]
fn channels_are_discovered_before_a_round() {
    let ch = channel("*");
    let mut session = PollSession::new(None, String::new(), Span::from_secs(0));
    let at = Span::from_secs;
    assert!(matches!(session.step(&ch, PollEvent::Slept, at(3), "1.0"), PollAction::Discover));
    // Nothing was found: the round is empty.
    assert!(matches!(
        session.step(&ch, PollEvent::Found(None), at(3), "1.0"),
        PollAction::Sleep
    ));
    assert!(matches!(session.step(&ch, PollEvent::Slept, at(6), "1.0"), PollAction::Discover));
    let found = PollEvent::Found(Some(vec!["C9".into()]));
    match session.step(&ch, found, at(6), "1.0") {
        PollAction::Fetch { channel_id, .. } => assert_eq!(channel_id, "C9"),
        _ => panic!("not fetched"),
    }
    assert!(matches!(
        session.step(&ch, PollEvent::Fetched(None), at(6), "1.0"),
        PollAction::Sleep
    ));
    // Within a minute the channels are known.
    assert!(matches!(
        session.step(&ch, PollEvent::Slept, at(65), "1.0"),
        PollAction::Fetch { .. }
    ));
    session.step(&ch, PollEvent::Fetched(None), at(65), "1.0");
    assert!(matches!(session.step(&ch, PollEvent::Slept, at(66), "1.0"), PollAction::Discover));
}

#[test]
fn polling_stops_when_nobody_listens() {
    let ch = channel("*");
    let mut session =
        PollSession::new(Some(vec!["C1".into()]), "U_BOT".into(), Span::from_secs(0));
    let now = Span::from_secs(3);
    session.step(&ch, PollEvent::Slept, now, "1.0");
    let action = session.step(&ch, page(&[("U1", "3.0"), ("U1", "2.0")]), now, "1.0");
    assert!(matches!(action, PollAction::Deliver(_)));
    assert!(matches!(
        session.step(&ch, PollEvent::Taken(false), now, "1.0"),
        PollAction::Stop
    ));
    assert!(matches!(session.step(&ch, PollEvent::Slept, now, "1.0"), PollAction::Stop));
}

#[test]
fn users_who_are_not_allowed_are_found() {
    let ch = channel("U_GOOD");
    let payload: Json = parse_json(
        r#"{"messages": [
            {"user": "U_BAD", "ts": "4.0", "text": "x"},
            {"user": "U_GOOD", "ts": "3.0", "text": "x"},
            {"user": "U_BAD2", "ts": "2.0", "text": "x", "subtype": "channel_join"},
            {"ts": "1.0", "text": "x"}, {"user": "U_BOT", "ts": "0.5"}]}"#,
    )
    .unwrap();
    assert_eq!(ch.find_refused_senders(&payload, "U_BOT"), ["unknown", "U_BAD"]);
    assert!(ch.find_refused_senders(&parse_json("{}").unwrap(), "U_BOT").is_empty());
}
