//! Socket Mode as a whole: from one event to the next action, over any number
//! of connections.

use vstd::prelude::*;
use crate::channel::SlackChannel;
use crate::inbound;
use crate::inbound::{Heard, Inbound, Rules};
use crate::json;
use crate::json::{Json, Tree};
use crate::messages;
use crate::outside;
use crate::sockets;
use crate::sockets::{ActionOn, EnvelopeStep, FrameAction, SocketFrame, StepOn};
use crate::tables::CursorTable;

verus! {

/// What happened since the last action.
pub enum SocketEvent {
    /// The address of a websocket was asked for; whether it came.
    Opened(bool),
    /// A connection was tried; whether it stands.
    Connected(bool),
    /// A frame came.
    Arrived(SocketFrame),
    /// The connection ended.
    Ended,
    /// A pong or an acknowledgement was sent; whether that succeeded.
    Sent(bool),
    /// A message was handed on; whether anyone still listens.
    Taken(bool),
    /// The pause is over.
    Paused,
}

/// What is worth a line in the log.
pub enum Notice {
    /// Nothing.
    Nothing,
    /// A text frame holds no JSON document.
    NotJson,
    /// The server closed the connection.
    Closed,
    /// The server asked for another connection.
    Disconnected,
    /// A user who is not allowed wrote a message.
    Refused(String),
}

/// What to do next.
pub enum SocketAction {
    /// Ask for the address of a websocket.
    Open,
    /// Connect to that address.
    Connect,
    /// Wait for a frame.
    Read(Notice),
    /// Answer a ping.
    Pong,
    /// Send the acknowledgement of an envelope.
    Ack(String),
    /// Hand on a message.
    Deliver(Inbound),
    /// Leave the connection, if there is one, and pause.
    Pause(Notice),
    /// Listen no more.
    Stop,
}

/// What a session waits for.
pub enum SocketPhase {
    Opening,
    Connecting,
    Reading,
    Ponging,
    /// The acknowledgement of the envelope is being sent.
    Acking(Json),
    Delivering,
    Pausing,
    Stopped,
}

/// What is worth a line in the log, as contracts speak of it.
pub enum NoticeOn {
    Nothing,
    NotJson,
    Closed,
    Disconnected,
    Refused(Seq<char>),
}

/// What to do next, as contracts speak of it.
pub enum NextAction {
    Open,
    Connect,
    Read(NoticeOn),
    Pong,
    Ack(Seq<char>),
    Deliver(Heard),
    Pause(NoticeOn),
    Stop,
}

/// What a session waits for, as contracts speak of it.
pub enum PhaseOn {
    Opening,
    Connecting,
    Reading,
    Ponging,
    Acking(Tree),
    Delivering,
    Pausing,
    Stopped,
}

impl View for Notice {
    type V = NoticeOn;

    open spec fn view(&self) -> NoticeOn {
        match self {
            Notice::Nothing => NoticeOn::Nothing,
            Notice::NotJson => NoticeOn::NotJson,
            Notice::Closed => NoticeOn::Closed,
            Notice::Disconnected => NoticeOn::Disconnected,
            Notice::Refused(user) => NoticeOn::Refused(user@),
        }
    }
}

impl View for SocketAction {
    type V = NextAction;

    open spec fn view(&self) -> NextAction {
        match self {
            SocketAction::Open => NextAction::Open,
            SocketAction::Connect => NextAction::Connect,
            SocketAction::Read(n) => NextAction::Read(n@),
            SocketAction::Pong => NextAction::Pong,
            SocketAction::Ack(t) => NextAction::Ack(t@),
            SocketAction::Deliver(m) => NextAction::Deliver(m@),
            SocketAction::Pause(n) => NextAction::Pause(n@),
            SocketAction::Stop => NextAction::Stop,
        }
    }
}

impl View for SocketPhase {
    type V = PhaseOn;

    open spec fn view(&self) -> PhaseOn {
        match self {
            SocketPhase::Opening => PhaseOn::Opening,
            SocketPhase::Connecting => PhaseOn::Connecting,
            SocketPhase::Reading => PhaseOn::Reading,
            SocketPhase::Ponging => PhaseOn::Ponging,
            SocketPhase::Acking(envelope) => PhaseOn::Acking(envelope@),
            SocketPhase::Delivering => PhaseOn::Delivering,
            SocketPhase::Pausing => PhaseOn::Pausing,
            SocketPhase::Stopped => PhaseOn::Stopped,
        }
    }
}

/// What a session heeds: the rules of the channel, the bot's own user, and the
/// channels to listen to.
pub struct Heed {
    pub rules: Rules,
    pub bot_user_id: Seq<char>,
    pub scope: Option<Seq<Seq<char>>>,
}

/// Where a session stands: what it waits for, and how far each channel was
/// heard.
pub struct Standing {
    pub phase: PhaseOn,
    pub cursors: Map<Seq<char>, Seq<char>>,
}

/// Goes on to the next frame.
pub open spec fn read_on(cursors: Map<Seq<char>, Seq<char>>, notice: NoticeOn) -> (
    Standing,
    NextAction,
) {
    (Standing { phase: PhaseOn::Reading, cursors }, NextAction::Read(notice))
}

/// Leaves the connection.
pub open spec fn leave(cursors: Map<Seq<char>, Seq<char>>, notice: NoticeOn) -> (
    Standing,
    NextAction,
) {
    (Standing { phase: PhaseOn::Pausing, cursors }, NextAction::Pause(notice))
}

/// Handles an envelope that needs no acknowledgement any more.
pub open spec fn handle(
    heed: Heed,
    cursors: Map<Seq<char>, Seq<char>>,
    envelope: Tree,
) -> (Standing, NextAction) {
    match sockets::step_on(heed.rules, heed.bot_user_id, heed.scope, cursors, envelope) {
        StepOn::Reconnect => leave(cursors, NoticeOn::Disconnected),
        StepOn::Skip => read_on(
            cursors,
            match sockets::refused_sender(heed.rules, heed.bot_user_id, heed.scope, envelope) {
                Some(user) => NoticeOn::Refused(user),
                None => NoticeOn::Nothing,
            },
        ),
        StepOn::Deliver(m) => (
            Standing {
                phase: PhaseOn::Delivering,
                cursors: inbound::cursors_after(cursors, Some(m)),
            },
            NextAction::Deliver(m),
        ),
    }
}

/// Handles a frame. An envelope with an identifier is acknowledged before
/// anything else is done about it.
pub open spec fn take_frame(
    heed: Heed,
    cursors: Map<Seq<char>, Seq<char>>,
    frame: SocketFrame,
) -> (Standing, NextAction) {
    match sockets::action_on(frame) {
        ActionOn::Read(envelope) => match json::text_member(envelope, "envelope_id"@) {
            Some(id) => (
                Standing { phase: PhaseOn::Acking(envelope), cursors },
                NextAction::Ack(outside::json_object_text(sockets::ack_members(id))),
            ),
            None => handle(heed, cursors, envelope),
        },
        ActionOn::Pong => (Standing { phase: PhaseOn::Ponging, cursors }, NextAction::Pong),
        ActionOn::Skip => read_on(
            cursors,
            if frame is Text {
                NoticeOn::NotJson
            } else {
                NoticeOn::Nothing
            },
        ),
        ActionOn::Reconnect => leave(
            cursors,
            if frame is Close {
                NoticeOn::Closed
            } else {
                NoticeOn::Nothing
            },
        ),
    }
}

/// The next action after an event, and where the session stands then. After a
/// failure the connection is left, and after a pause another one is opened. The
/// session stops when nobody takes its messages any more. An event that does
/// not answer the last action counts as a failure.
pub open spec fn after_event(heed: Heed, at: Standing, event: SocketEvent) -> (
    Standing,
    NextAction,
) {
    match (at.phase, event) {
        (PhaseOn::Stopped, _) => (at, NextAction::Stop),
        (PhaseOn::Opening, SocketEvent::Opened(true)) => (
            Standing { phase: PhaseOn::Connecting, ..at },
            NextAction::Connect,
        ),
        (PhaseOn::Connecting, SocketEvent::Connected(true)) => read_on(
            at.cursors,
            NoticeOn::Nothing,
        ),
        (PhaseOn::Reading, SocketEvent::Arrived(frame)) => take_frame(heed, at.cursors, frame),
        (PhaseOn::Ponging, SocketEvent::Sent(true)) => read_on(at.cursors, NoticeOn::Nothing),
        (PhaseOn::Acking(envelope), SocketEvent::Sent(true)) => handle(heed, at.cursors, envelope),
        (PhaseOn::Delivering, SocketEvent::Taken(true)) => read_on(at.cursors, NoticeOn::Nothing),
        (PhaseOn::Delivering, SocketEvent::Taken(false)) => (
            Standing { phase: PhaseOn::Stopped, ..at },
            NextAction::Stop,
        ),
        (PhaseOn::Pausing, SocketEvent::Paused) => (
            Standing { phase: PhaseOn::Opening, ..at },
            NextAction::Open,
        ),
        _ => leave(at.cursors, NoticeOn::Nothing),
    }
}

/// Listening in Socket Mode.
pub struct SocketSession {
    /// The bot's own user.
    pub bot_user_id: String,
    /// The channels that are configured, if any are.
    pub scope: Option<Vec<String>>,
    /// The timestamp of the last message that was heard in each channel.
    pub cursors: CursorTable,
    /// What the session waits for.
    pub phase: SocketPhase,
}

impl SocketSession {
    /// Where the session stands.
    pub open spec fn standing(self) -> Standing {
        Standing { phase: self.phase@, cursors: self.cursors@ }
    }

    /// What the session heeds, for a channel with the given rules.
    pub open spec fn heed(self, rules: Rules) -> Heed {
        Heed {
            rules,
            bot_user_id: self.bot_user_id@,
            scope: sockets::opt_strings(self.scope),
        }
    }

    /// The start of a session, whose first action is to ask for the address of
    /// a websocket.
    pub fn new(bot_user_id: String, scope: Option<Vec<String>>) -> (r: SocketSession)
        ensures
            r.bot_user_id == bot_user_id,
            r.scope == scope,
            r.standing() == (Standing { phase: PhaseOn::Opening, cursors: Map::empty() }),
    {
        SocketSession {
            bot_user_id,
            scope,
            cursors: CursorTable::new(),
            phase: SocketPhase::Opening,
        }
    }

    /// Decides what to do after an event.
    pub fn step(self, slack: &SlackChannel, event: SocketEvent) -> (r: (
        SocketSession,
        SocketAction,
    ))
        ensures
            (r.0.standing(), r.1@) == after_event(
                self.heed(slack.rules()),
                self.standing(),
                event,
            ),
            r.0.bot_user_id == self.bot_user_id,
            r.0.scope == self.scope,
    {
        let SocketSession { bot_user_id, scope, cursors, phase } = self;
        let mut cursors = cursors;
        let (phase, action): (SocketPhase, SocketAction) = match (phase, event) {
            (SocketPhase::Stopped, _) => (SocketPhase::Stopped, SocketAction::Stop),
            (SocketPhase::Opening, SocketEvent::Opened(true)) => (
                SocketPhase::Connecting,
                SocketAction::Connect,
            ),
            (SocketPhase::Connecting, SocketEvent::Connected(true)) => (
                SocketPhase::Reading,
                SocketAction::Read(Notice::Nothing),
            ),
            (SocketPhase::Reading, SocketEvent::Arrived(frame)) => slack.receive_frame(
                frame,
                bot_user_id.as_str(),
                &scope,
                &mut cursors,
            ),
            (SocketPhase::Ponging, SocketEvent::Sent(true)) => (
                SocketPhase::Reading,
                SocketAction::Read(Notice::Nothing),
            ),
            (SocketPhase::Acking(envelope), SocketEvent::Sent(true)) => slack.handle_envelope(
                &envelope,
                bot_user_id.as_str(),
                &scope,
                &mut cursors,
            ),
            (SocketPhase::Delivering, SocketEvent::Taken(true)) => (
                SocketPhase::Reading,
                SocketAction::Read(Notice::Nothing),
            ),
            (SocketPhase::Delivering, SocketEvent::Taken(false)) => (
                SocketPhase::Stopped,
                SocketAction::Stop,
            ),
            (SocketPhase::Pausing, SocketEvent::Paused) => (
                SocketPhase::Opening,
                SocketAction::Open,
            ),
            _ => (SocketPhase::Pausing, SocketAction::Pause(Notice::Nothing)),
        };
        (SocketSession { bot_user_id, scope, cursors, phase }, action)
    }
}

impl SlackChannel {
    /// Handles an envelope that needs no acknowledgement any more.
    pub fn handle_envelope(
        &self,
        envelope: &Json,
        bot_user_id: &str,
        scope: &Option<Vec<String>>,
        cursors: &mut CursorTable,
    ) -> (r: (SocketPhase, SocketAction))
        ensures
            (Standing { phase: r.0@, cursors: final(cursors)@ }, r.1@) == handle(
                (Heed {
                    rules: self.rules(),
                    bot_user_id: bot_user_id@,
                    scope: sockets::opt_strings(*scope),
                }),
                old(cursors)@,
                envelope@,
            ),
    {
        match self.receive_envelope(envelope, bot_user_id, scope, cursors) {
            EnvelopeStep::Skip => {
                let notice = match self.find_refused_sender(envelope, bot_user_id, scope) {
                    Some(user) => Notice::Refused(user),
                    None => Notice::Nothing,
                };
                (SocketPhase::Reading, SocketAction::Read(notice))
            },
            EnvelopeStep::Reconnect => (
                SocketPhase::Pausing,
                SocketAction::Pause(Notice::Disconnected),
            ),
            EnvelopeStep::Deliver(m) => (SocketPhase::Delivering, SocketAction::Deliver(m)),
        }
    }

    /// Handles a frame.
    pub fn receive_frame(
        &self,
        frame: SocketFrame,
        bot_user_id: &str,
        scope: &Option<Vec<String>>,
        cursors: &mut CursorTable,
    ) -> (r: (SocketPhase, SocketAction))
        ensures
            (Standing { phase: r.0@, cursors: final(cursors)@ }, r.1@) == take_frame(
                (Heed {
                    rules: self.rules(),
                    bot_user_id: bot_user_id@,
                    scope: sockets::opt_strings(*scope),
                }),
                old(cursors)@,
                frame,
            ),
    {
        match sockets::on_frame(&frame) {
            FrameAction::Read(envelope) => match sockets::ack_of(&envelope) {
                Some(ack) => (SocketPhase::Acking(envelope), SocketAction::Ack(ack)),
                None => self.handle_envelope(&envelope, bot_user_id, scope, cursors),
            },
            FrameAction::Pong => (SocketPhase::Ponging, SocketAction::Pong),
            FrameAction::Skip => {
                let notice = match frame {
                    SocketFrame::Text(_) => Notice::NotJson,
                    _ => Notice::Nothing,
                };
                (SocketPhase::Reading, SocketAction::Read(notice))
            },
            FrameAction::Reconnect => {
                let notice = match frame {
                    SocketFrame::Close => Notice::Closed,
                    _ => Notice::Nothing,
                };
                (SocketPhase::Pausing, SocketAction::Pause(notice))
            },
        }
    }
}

} // verus!
