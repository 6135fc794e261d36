//! Which messages are heard, and what is made of them.

use vstd::prelude::*;
use crate::channel;
use crate::channel::SlackChannel;
use crate::json;
use crate::json::{Json, Tree};
use crate::messages;
use crate::messages::ChannelMessage;
use crate::tables::CursorTable;
use crate::text;

verus! {

/// The rules of a channel on who is heard, as contracts speak of them.
pub struct Rules {
    pub allowed: Seq<Seq<char>>,
    pub mention_only: bool,
    pub group_senders: Seq<Seq<char>>,
}

impl SlackChannel {
    /// The rules of the channel on who is heard.
    pub open spec fn rules(self) -> Rules {
        Rules {
            allowed: text::strings(self.allowed_users@),
            mention_only: self.mention_only,
            group_senders: text::strings(self.group_reply_allowed_sender_ids@),
        }
    }
}

/// A message that is heard; the name of its sender is still to be found.
#[derive(Debug)]
pub struct Inbound {
    pub channel_id: String,
    pub ts: String,
    pub user: String,
    pub content: String,
    pub thread_ts: Option<String>,
}

/// A message that is heard, as contracts speak of it.
pub struct Heard {
    pub channel_id: Seq<char>,
    pub ts: Seq<char>,
    pub user: Seq<char>,
    pub content: Seq<char>,
    pub thread_ts: Option<Seq<char>>,
}

impl View for Inbound {
    type V = Heard;

    open spec fn view(&self) -> Heard {
        Heard {
            channel_id: self.channel_id@,
            ts: self.ts@,
            user: self.user@,
            content: self.content@,
            thread_ts: messages::opt_text(self.thread_ts),
        }
    }
}

/// The message that an optional one stands for.
pub open spec fn opt_heard(m: Option<Inbound>) -> Option<Heard> {
    match m {
        Some(i) => Some(i@),
        None => None,
    }
}

/// The text of a string member, or the given one.
pub open spec fn text_or(msg: Tree, key: Seq<char>, default: Seq<char>) -> Seq<char> {
    match json::text_member(msg, key) {
        Some(t) => t,
        None => default,
    }
}

/// The thread that a message belongs to: the one that it names, else the one
/// that it may start itself.
pub open spec fn thread_of(msg: Tree, ts: Seq<char>) -> Option<Seq<char>> {
    match json::text_member(msg, "thread_ts"@) {
        Some(t) => Some(t),
        None => if ts.len() == 0 {
            None
        } else {
            Some(ts)
        },
    }
}

/// The timestamp of the last message that was heard in a channel.
pub open spec fn last_seen(cursors: Map<Seq<char>, Seq<char>>, channel_id: Seq<char>) -> Seq<char> {
    if cursors.contains_key(channel_id) {
        cursors[channel_id]
    } else {
        Seq::empty()
    }
}

/// A user has to mention the bot to be heard in a channel.
pub open spec fn mention_needed(rules: Rules, channel_id: Seq<char>, user: Seq<char>) -> bool {
    rules.mention_only && channel::group_channel(channel_id) && !(text::trim(user).len() > 0
        && channel::lists(rules.group_senders, text::trim(user)))
}

/// What is heard of a message of a user in a channel: nothing if it is no plain
/// message, if it is the bot's own, if the user is not allowed, if it is not
/// newer than the last one, or if it says nothing to the bot.
pub open spec fn heard(
    rules: Rules,
    bot_user_id: Seq<char>,
    cursors: Map<Seq<char>, Seq<char>>,
    channel_id: Seq<char>,
    user: Seq<char>,
    msg: Tree,
) -> Option<Heard> {
    let ts = text_or(msg, "ts"@, Seq::empty());
    if json::member(msg, "subtype"@) is Some || user == bot_user_id || !channel::lists(
        rules.allowed,
        user,
    ) || !text::precedes(last_seen(cursors, channel_id), ts) {
        None
    } else {
        match channel::content(
            text_or(msg, "text"@, Seq::empty()),
            mention_needed(rules, channel_id, user),
            bot_user_id,
        ) {
            Some(content) => Some(
                Heard { channel_id, ts, user, content, thread_ts: thread_of(msg, ts) },
            ),
            None => None,
        }
    }
}

/// The message is ignored because its user is not allowed: a plain message that
/// is not the bot's own.
pub open spec fn refused(
    rules: Rules,
    bot_user_id: Seq<char>,
    user: Seq<char>,
    msg: Tree,
) -> bool {
    json::member(msg, "subtype"@) is None && user != bot_user_id && !channel::lists(
        rules.allowed,
        user,
    )
}

/// The cursors once a message was heard.
pub open spec fn cursors_after(cursors: Map<Seq<char>, Seq<char>>, m: Option<Heard>) -> Map<
    Seq<char>,
    Seq<char>,
> {
    match m {
        Some(h) => cursors.insert(h.channel_id, h.ts),
        None => cursors,
    }
}

/// The identifier of a message.
pub open spec fn id_of(channel_id: Seq<char>, ts: Seq<char>) -> Seq<char> {
    "slack_"@ + channel_id + "_"@ + ts
}

/// The identifier of a message.
pub fn message_id(channel_id: &str, ts: &str) -> (r: String)
    ensures
        r@ == id_of(channel_id@, ts@),
{
    let mut out: String = "slack_".to_owned();
    text::push_str(&mut out, channel_id);
    text::push_str(&mut out, "_");
    text::push_str(&mut out, ts);
    out
}

/// The text of a string member, or the given one.
fn text_or_of<'a>(msg: &'a Json, key: &str, default: &'a str) -> (r: &'a str)
    ensures
        r@ == text_or(msg@, key@, default@),
{
    match msg.get_str(key) {
        Some(t) => t,
        None => default,
    }
}

impl SlackChannel {
    /// Resolves the thread identifier for inbound messages. Replies carry
    /// `thread_ts`, the root of the thread; top-level messages only have `ts`.
    pub fn inbound_thread_ts(msg: &Json, ts: &str) -> (r: Option<String>)
        ensures
            messages::opt_text(r) == thread_of(msg@, ts@),
    {
        match msg.get_str("thread_ts") {
            Some(t) => Some(t.to_owned()),
            None => if ts.is_empty() {
                None
            } else {
                Some(ts.to_owned())
            },
        }
    }

    /// Whether a user has to mention the bot to be heard in a channel.
    pub fn is_mention_needed(&self, channel_id: &str, user: &str) -> (r: bool)
        ensures
            r == mention_needed(self.rules(), channel_id@, user@),
    {
        self.mention_only && Self::is_group_channel_id(channel_id)
            && !self.is_group_sender_trigger_enabled(user)
    }

    /// Whether a message is ignored because its user is not allowed.
    pub fn is_refused(&self, msg: &Json, user: &str, bot_user_id: &str) -> (r: bool)
        ensures
            r == refused(self.rules(), bot_user_id@, user@, msg@),
    {
        msg.get("subtype").is_none() && !text::same(user, bot_user_id) && !self.is_user_allowed(
            user,
        )
    }

    /// Hears a message of a user in a channel, or ignores it. The channel's
    /// cursor moves on to a message that is heard.
    pub fn hear(
        &self,
        msg: &Json,
        user: &str,
        channel_id: &str,
        bot_user_id: &str,
        cursors: &mut CursorTable,
    ) -> (r: Option<Inbound>)
        ensures
            opt_heard(r) == heard(
                self.rules(),
                bot_user_id@,
                old(cursors)@,
                channel_id@,
                user@,
                msg@,
            ),
            final(cursors)@ == cursors_after(old(cursors)@, opt_heard(r)),
    {
        if msg.get("subtype").is_some() {
            return None;
        }
        if text::same(user, bot_user_id) || !self.is_user_allowed(user) {
            return None;
        }
        let ts = text_or_of(msg, "ts", "");
        let text = text_or_of(msg, "text", "");
        proof {
            reveal_strlit("");
            assert(""@ == Seq::<char>::empty());
        }
        let newer = match cursors.get(channel_id) {
            Some(last) => text::is_before(last, ts),
            None => text::is_before("", ts),
        };
        if !newer {
            return None;
        }
        let need = self.is_mention_needed(channel_id, user);
        match Self::normalize_incoming_content(text, need, bot_user_id) {
            Some(content) => {
                let thread_ts = Self::inbound_thread_ts(msg, ts);
                cursors.insert(channel_id, ts);
                Some(
                    Inbound {
                        channel_id: channel_id.to_owned(),
                        ts: ts.to_owned(),
                        user: user.to_owned(),
                        content,
                        thread_ts,
                    },
                )
            },
            None => None,
        }
    }
}

impl Inbound {
    /// The message that is handed on once the name of its sender is known.
    pub fn into_message(self, sender: String, timestamp: u64) -> (r: ChannelMessage)
        ensures
            r.id@ == id_of(self.channel_id@, self.ts@),
            r.sender == sender,
            r.reply_target == self.channel_id,
            r.content == self.content,
            r.channel@ == "slack"@,
            r.timestamp == timestamp,
            r.thread_ts == self.thread_ts,
    {
        ChannelMessage {
            id: message_id(self.channel_id.as_str(), self.ts.as_str()),
            sender,
            reply_target: self.channel_id,
            content: self.content,
            channel: "slack".to_owned(),
            timestamp,
            thread_ts: self.thread_ts,
        }
    }
}

} // verus!
