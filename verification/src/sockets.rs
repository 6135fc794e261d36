//! Socket Mode: envelopes that come over a websocket.

use vstd::prelude::*;
use crate::api;
use crate::channel::SlackChannel;
use crate::inbound;
use crate::inbound::{Heard, Inbound, Rules};
use crate::json;
use crate::json::{Json, Tree};
use crate::messages;
use crate::outside;
use crate::tables::CursorTable;
use crate::text;

verus! {

/// The seconds to wait before a connection is opened anew.
pub const RECONNECT_DELAY_SECS: u64 = 3;

/// What comes over the websocket.
#[derive(Debug)]
pub enum SocketFrame {
    /// A text.
    Text(String),
    /// A ping, to be answered by a pong with the same payload.
    Ping,
    /// The server closes the connection.
    Close,
    /// A frame of another kind.
    Other,
    /// Reading failed.
    Failed,
}

/// What to do about a frame.
pub enum FrameAction {
    /// Acknowledge and handle the envelope.
    Read(Json),
    /// Answer the ping.
    Pong,
    /// Go on to the next frame.
    Skip,
    /// Leave this connection and open another.
    Reconnect,
}

/// What to do about a frame, as contracts speak of it.
pub enum ActionOn {
    Read(Tree),
    Pong,
    Skip,
    Reconnect,
}

impl View for FrameAction {
    type V = ActionOn;

    open spec fn view(&self) -> ActionOn {
        match self {
            FrameAction::Read(envelope) => ActionOn::Read(envelope@),
            FrameAction::Pong => ActionOn::Pong,
            FrameAction::Skip => ActionOn::Skip,
            FrameAction::Reconnect => ActionOn::Reconnect,
        }
    }
}

/// What to do about a frame.
pub open spec fn action_on(frame: SocketFrame) -> ActionOn {
    match frame {
        SocketFrame::Text(t) => match outside::json_document(t@) {
            Some(envelope) => ActionOn::Read(envelope),
            None => ActionOn::Skip,
        },
        SocketFrame::Ping => ActionOn::Pong,
        SocketFrame::Close => ActionOn::Reconnect,
        SocketFrame::Other => ActionOn::Skip,
        SocketFrame::Failed => ActionOn::Reconnect,
    }
}

/// Decides what to do about a frame.
pub fn on_frame(frame: &SocketFrame) -> (r: FrameAction)
    ensures
        r@ == action_on(*frame),
{
    match frame {
        SocketFrame::Text(t) => match json::parse_json(t.as_str()) {
            Some(envelope) => FrameAction::Read(envelope),
            None => FrameAction::Skip,
        },
        SocketFrame::Ping => FrameAction::Pong,
        SocketFrame::Close => FrameAction::Reconnect,
        SocketFrame::Other => FrameAction::Skip,
        SocketFrame::Failed => FrameAction::Reconnect,
    }
}

/// The members of the acknowledgement of an envelope.
pub open spec fn ack_members(envelope_id: Seq<char>) -> Seq<(Seq<char>, Seq<char>)> {
    seq![("envelope_id"@, envelope_id)]
}

/// The text that acknowledges an envelope. An envelope without an identifier
/// is not acknowledged.
pub fn ack_of(envelope: &Json) -> (r: Option<String>)
    ensures
        messages::opt_text(r) == match json::text_member(envelope@, "envelope_id"@) {
            Some(id) => Some(outside::json_object_text(ack_members(id))),
            None => None,
        },
        r matches Some(ack) ==> json::text_member(json::body_value(ack@), "envelope_id"@)
            == json::text_member(envelope@, "envelope_id"@),
{
    match envelope.get_str("envelope_id") {
        Some(id) => {
            let mut members: Vec<(String, String)> = Vec::new();
            api::push_field(&mut members, "envelope_id", id);
            proof {
                assert(outside::fields(members@) == ack_members(id@));
                assert(ack_members(id@).last() == ("envelope_id"@, id@));
            }
            let ack = api::request_body(&members);
            proof {
                assert(json::member(json::body_value(ack@), "envelope_id"@) == Some(
                    Tree::Text(id@),
                ));
            }
            Some(ack)
        },
        None => None,
    }
}

/// What to do after an envelope was acknowledged.
pub enum EnvelopeStep {
    /// Go on to the next frame.
    Skip,
    /// Leave this connection and open another.
    Reconnect,
    /// Hand on a message.
    Deliver(Inbound),
}

/// What to do after an envelope, as contracts speak of it.
pub enum StepOn {
    Skip,
    Reconnect,
    Deliver(Heard),
}

impl View for EnvelopeStep {
    type V = StepOn;

    open spec fn view(&self) -> StepOn {
        match self {
            EnvelopeStep::Skip => StepOn::Skip,
            EnvelopeStep::Reconnect => StepOn::Reconnect,
            EnvelopeStep::Deliver(m) => StepOn::Deliver(m@),
        }
    }
}

/// The message that a step delivers.
pub open spec fn delivered(step: StepOn) -> Option<Heard> {
    match step {
        StepOn::Deliver(m) => Some(m),
        _ => None,
    }
}

/// The event of an envelope of the Events API.
pub open spec fn event_of(envelope: Tree) -> Option<Tree> {
    match json::member(envelope, "payload"@) {
        Some(payload) => json::member(payload, "event"@),
        None => None,
    }
}

/// The scope holds the channel. Without a scope every channel is in it.
pub open spec fn in_scope(scope: Option<Seq<Seq<char>>>, channel_id: Seq<char>) -> bool {
    match scope {
        Some(ids) => ids.contains(channel_id),
        None => true,
    }
}

/// What is heard of an event: nothing if it is no message, if it names no
/// channel of the scope, or if it names no user.
pub open spec fn heard_event(
    rules: Rules,
    bot_user_id: Seq<char>,
    scope: Option<Seq<Seq<char>>>,
    cursors: Map<Seq<char>, Seq<char>>,
    event: Tree,
) -> Option<Heard> {
    let channel_id = inbound::text_or(event, "channel"@, Seq::empty());
    let user = inbound::text_or(event, "user"@, Seq::empty());
    if json::text_member(event, "type"@) != Some("message"@) || channel_id.len() == 0 || !in_scope(
        scope,
        channel_id,
    ) || user.len() == 0 {
        None
    } else {
        inbound::heard(rules, bot_user_id, cursors, channel_id, user, event)
    }
}

/// The user of an event that is ignored because the user is not allowed.
pub open spec fn refused_sender(
    rules: Rules,
    bot_user_id: Seq<char>,
    scope: Option<Seq<Seq<char>>>,
    envelope: Tree,
) -> Option<Seq<char>> {
    match event_of(envelope) {
        Some(event) => {
            let channel_id = inbound::text_or(event, "channel"@, Seq::empty());
            let user = inbound::text_or(event, "user"@, Seq::empty());
            if json::text_member(envelope, "type"@) == Some("events_api"@) && json::text_member(
                event,
                "type"@,
            ) == Some("message"@) && channel_id.len() > 0 && in_scope(scope, channel_id)
                && user.len() > 0 && inbound::refused(rules, bot_user_id, user, event) {
                Some(user)
            } else {
                None
            }
        },
        None => None,
    }
}

/// What to do after an envelope.
pub open spec fn step_on(
    rules: Rules,
    bot_user_id: Seq<char>,
    scope: Option<Seq<Seq<char>>>,
    cursors: Map<Seq<char>, Seq<char>>,
    envelope: Tree,
) -> StepOn {
    let kind = json::text_member(envelope, "type"@);
    if kind == Some("disconnect"@) {
        StepOn::Reconnect
    } else if kind == Some("events_api"@) {
        match event_of(envelope) {
            Some(event) => match heard_event(rules, bot_user_id, scope, cursors, event) {
                Some(m) => StepOn::Deliver(m),
                None => StepOn::Skip,
            },
            None => StepOn::Skip,
        }
    } else {
        StepOn::Skip
    }
}

/// The texts of an optional list.
pub open spec fn opt_strings(v: Option<Vec<String>>) -> Option<Seq<Seq<char>>> {
    match v {
        Some(ids) => Some(text::strings(ids@)),
        None => None,
    }
}

/// Whether the scope holds the channel.
fn is_in_scope(scope: &Option<Vec<String>>, channel_id: &str) -> (r: bool)
    ensures
        r == in_scope(opt_strings(*scope), channel_id@),
{
    match scope {
        Some(ids) => text::holds(ids, channel_id),
        None => true,
    }
}

/// Whether a string member has the given text.
fn says(j: &Json, key: &str, value: &str) -> (r: bool)
    ensures
        r == (json::text_member(j@, key@) == Some(value@)),
{
    match j.get_str(key) {
        Some(t) => text::same(t, value),
        None => false,
    }
}

impl SlackChannel {
    /// Handles an event, which may be a message.
    pub fn receive_event(
        &self,
        event: &Json,
        bot_user_id: &str,
        scope: &Option<Vec<String>>,
        cursors: &mut CursorTable,
    ) -> (r: Option<Inbound>)
        ensures
            inbound::opt_heard(r) == heard_event(
                self.rules(),
                bot_user_id@,
                opt_strings(*scope),
                old(cursors)@,
                event@,
            ),
            final(cursors)@ == inbound::cursors_after(old(cursors)@, inbound::opt_heard(r)),
    {
        if !says(event, "type", "message") {
            return None;
        }
        let channel_id = match event.get_str("channel") {
            Some(id) => id,
            None => {
                return None;
            },
        };
        if channel_id.is_empty() || !is_in_scope(scope, channel_id) {
            return None;
        }
        let user = match event.get_str("user") {
            Some(id) => id,
            None => {
                return None;
            },
        };
        if user.is_empty() {
            return None;
        }
        self.hear(event, user, channel_id, bot_user_id, cursors)
    }

    /// Finds the user of an event that is ignored because the user is not
    /// allowed.
    pub fn find_refused_sender(
        &self,
        envelope: &Json,
        bot_user_id: &str,
        scope: &Option<Vec<String>>,
    ) -> (r: Option<String>)
        ensures
            messages::opt_text(r) == refused_sender(
                self.rules(),
                bot_user_id@,
                opt_strings(*scope),
                envelope@,
            ),
    {
        let payload = match envelope.get("payload") {
            Some(payload) => payload,
            None => {
                return None;
            },
        };
        let event = match payload.get("event") {
            Some(event) => event,
            None => {
                return None;
            },
        };
        match (event.get_str("channel"), event.get_str("user")) {
            (Some(channel_id), Some(user)) => if says(envelope, "type", "events_api") && says(
                event,
                "type",
                "message",
            ) && !channel_id.is_empty() && is_in_scope(scope, channel_id) && !user.is_empty()
                && self.is_refused(event, user, bot_user_id) {
                Some(user.to_owned())
            } else {
                None
            },
            _ => None,
        }
    }

    /// Handles an envelope. The cursor of a channel moves on to a message that
    /// is delivered.
    pub fn receive_envelope(
        &self,
        envelope: &Json,
        bot_user_id: &str,
        scope: &Option<Vec<String>>,
        cursors: &mut CursorTable,
    ) -> (r: EnvelopeStep)
        ensures
            r@ == step_on(
                self.rules(),
                bot_user_id@,
                opt_strings(*scope),
                old(cursors)@,
                envelope@,
            ),
            final(cursors)@ == inbound::cursors_after(old(cursors)@, delivered(r@)),
    {
        proof {
            reveal_strlit("disconnect");
            reveal_strlit("events_api");
            assert("disconnect"@[0] != "events_api"@[0]);
        }
        if says(envelope, "type", "disconnect") {
            return EnvelopeStep::Reconnect;
        }
        if !says(envelope, "type", "events_api") {
            return EnvelopeStep::Skip;
        }
        match envelope.get("payload") {
            Some(payload) => match payload.get("event") {
                Some(event) => match self.receive_event(event, bot_user_id, scope, cursors) {
                    Some(m) => EnvelopeStep::Deliver(m),
                    None => EnvelopeStep::Skip,
                },
                None => EnvelopeStep::Skip,
            },
            None => EnvelopeStep::Skip,
        }
    }
}

} // verus!
