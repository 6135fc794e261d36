//! Polling: pages of a channel's history.

use vstd::prelude::*;
use crate::api;
use crate::channel;
use crate::channel::SlackChannel;
use crate::clock;
use crate::clock::Span;
use crate::inbound;
use crate::inbound::{Heard, Inbound, Rules};
use crate::json;
use crate::json::{Json, Tree};
use crate::outside;
use crate::tables::CursorTable;
use crate::text;

verus! {

/// The seconds between two rounds of polling.
pub const POLL_INTERVAL_SECS: u64 = 3;

/// The seconds after which channels are discovered anew.
pub const DISCOVERY_INTERVAL_SECS: u64 = 60;

/// The query for the history of a channel since a timestamp.
pub open spec fn history_fields(channel_id: Seq<char>, oldest: Seq<char>) -> Seq<
    (Seq<char>, Seq<char>),
> {
    seq![("channel"@, channel_id), ("limit"@, "10"@), ("oldest"@, oldest)]
}

/// The query for the history of a channel since a timestamp.
pub fn history_query(channel_id: &str, oldest: &str) -> (r: Vec<(String, String)>)
    ensures
        outside::fields(r@) == history_fields(channel_id@, oldest@),
{
    let mut out: Vec<(String, String)> = Vec::new();
    api::push_field(&mut out, "channel", channel_id);
    api::push_field(&mut out, "limit", "10");
    api::push_field(&mut out, "oldest", oldest);
    proof {
        assert(outside::fields(out@) == history_fields(channel_id@, oldest@));
    }
    out
}

/// The user that a reply of `auth.test` names, or the empty one.
pub fn bot_user_id(body: &str) -> (r: String)
    ensures
        r@ == inbound::text_or(json::body_value(body@), "user_id"@, Seq::empty()),
{
    let payload = json::parse_body(body);
    match api::user_id_of(&payload) {
        Some(id) => id,
        None => String::new(),
    }
}

/// What is heard of a message in the history of a channel. A message without a
/// user counts as one of the user `unknown`.
pub open spec fn heard_polled(
    rules: Rules,
    bot_user_id: Seq<char>,
    cursors: Map<Seq<char>, Seq<char>>,
    channel_id: Seq<char>,
    msg: Tree,
) -> Option<Heard> {
    inbound::heard(
        rules,
        bot_user_id,
        cursors,
        channel_id,
        inbound::text_or(msg, "user"@, "unknown"@),
        msg,
    )
}

/// What is heard of messages one after the other, and the cursors after them.
pub open spec fn heard_all(
    rules: Rules,
    bot_user_id: Seq<char>,
    cursors: Map<Seq<char>, Seq<char>>,
    channel_id: Seq<char>,
    msgs: Seq<Tree>,
) -> (Seq<Heard>, Map<Seq<char>, Seq<char>>)
    decreases msgs.len(),
{
    if msgs.len() == 0 {
        (Seq::empty(), cursors)
    } else {
        let (front, then) = heard_all(rules, bot_user_id, cursors, channel_id, msgs.drop_last());
        match heard_polled(rules, bot_user_id, then, channel_id, msgs.last()) {
            Some(m) => (front.push(m), inbound::cursors_after(then, Some(m))),
            None => (front, then),
        }
    }
}

/// The messages of a page of history, oldest first. A page lists them newest
/// first.
pub open spec fn page_messages(payload: Tree) -> Seq<Tree> {
    match json::member(payload, "messages"@) {
        Some(Tree::Array(msgs)) => msgs.reverse(),
        _ => Seq::empty(),
    }
}

/// The users of messages that are ignored because the user is not allowed, in
/// order.
pub open spec fn refused_senders(rules: Rules, bot_user_id: Seq<char>, msgs: Seq<Tree>) -> Seq<
    Seq<char>,
>
    decreases msgs.len(),
{
    if msgs.len() == 0 {
        Seq::empty()
    } else {
        let front = refused_senders(rules, bot_user_id, msgs.drop_last());
        let user = inbound::text_or(msgs.last(), "user"@, "unknown"@);
        if inbound::refused(rules, bot_user_id, user, msgs.last()) {
            front.push(user)
        } else {
            front
        }
    }
}

/// The messages, as contracts speak of them.
pub open spec fn all_heard(v: Seq<Inbound>) -> Seq<Heard> {
    v.map_values(|m: Inbound| m@)
}

impl SlackChannel {
    /// The current time as a Slack timestamp.
    pub fn slack_now_ts() -> (r: String)
        ensures
            exists|t: std::time::SystemTime|
                r@ == match #[trigger] outside::unix_time(t) {
                    Some(reading) => clock::timestamp_text(reading.0 as int, reading.1 as int),
                    None => clock::timestamp_text(0, 0),
                },
    {
        let (secs, nanos): (u64, u32) = match outside::since_epoch(std::time::SystemTime::now()) {
            Some(reading) => reading,
            None => (0, 0),
        };
        clock::format_timestamp(secs, nanos)
    }

    /// Handles a message of a page of history.
    pub fn receive_polled(
        &self,
        msg: &Json,
        channel_id: &str,
        bot_user_id: &str,
        cursors: &mut CursorTable,
    ) -> (r: Option<Inbound>)
        ensures
            inbound::opt_heard(r) == heard_polled(
                self.rules(),
                bot_user_id@,
                old(cursors)@,
                channel_id@,
                msg@,
            ),
            final(cursors)@ == inbound::cursors_after(old(cursors)@, inbound::opt_heard(r)),
    {
        let user = match msg.get_str("user") {
            Some(id) => id,
            None => "unknown",
        };
        self.hear(msg, user, channel_id, bot_user_id, cursors)
    }

    /// Finds the users of a page of history who are ignored because they are not
    /// allowed.
    pub fn find_refused_senders(&self, payload: &Json, bot_user_id: &str) -> (r: Vec<String>)
        ensures
            text::strings(r@) == refused_senders(
                self.rules(),
                bot_user_id@,
                page_messages(payload@),
            ),
    {
        let ghost page = page_messages(payload@);
        let mut out: Vec<String> = Vec::new();
        proof {
            assert(text::strings(out@) == Seq::<Seq<char>>::empty());
        }
        let msgs = match payload.get_array("messages") {
            Some(msgs) => msgs,
            None => {
                return out;
            },
        };
        let count: usize = msgs.len();
        let mut left: usize = count;
        proof {
            assert(page == json::trees(msgs@).reverse());
            assert(page.take(0) == Seq::<Tree>::empty());
        }
        while left > 0
            invariant
                left <= count,
                count == msgs.len(),
                page == json::trees(msgs@).reverse(),
                text::strings(out@) == refused_senders(
                    self.rules(),
                    bot_user_id@,
                    page.take(count - left),
                ),
            decreases left,
        {
            left -= 1;
            let ghost before = text::strings(out@);
            proof {
                assert(page[count - left - 1] == msgs@[left as int]@);
                assert(page.take(count - left).drop_last() == page.take(count - left - 1));
            }
            let user = match msgs[left].get_str("user") {
                Some(id) => id,
                None => "unknown",
            };
            if self.is_refused(&msgs[left], user, bot_user_id) {
                out.push(user.to_owned());
                proof {
                    assert(text::strings(out@) == before.push(user@));
                }
            }
        }
        proof {
            assert(page.take(count - left) == page);
        }
        out
    }

    /// Handles a page of history, from its oldest message to its newest.
    pub fn receive_history(
        &self,
        payload: &Json,
        channel_id: &str,
        bot_user_id: &str,
        cursors: &mut CursorTable,
    ) -> (r: Vec<Inbound>)
        ensures
            (all_heard(r@), final(cursors)@) == heard_all(
                self.rules(),
                bot_user_id@,
                old(cursors)@,
                channel_id@,
                page_messages(payload@),
            ),
    {
        let ghost start = cursors@;
        let ghost page = page_messages(payload@);
        let mut out: Vec<Inbound> = Vec::new();
        proof {
            assert(all_heard(out@) == Seq::<Heard>::empty());
        }
        let msgs = match payload.get_array("messages") {
            Some(msgs) => msgs,
            None => {
                return out;
            },
        };
        let count: usize = msgs.len();
        let mut left: usize = count;
        proof {
            assert(page == json::trees(msgs@).reverse());
            assert(page.take(0) == Seq::<Tree>::empty());
        }
        while left > 0
            invariant
                left <= count,
                count == msgs.len(),
                page == json::trees(msgs@).reverse(),
                (all_heard(out@), cursors@) == heard_all(
                    self.rules(),
                    bot_user_id@,
                    start,
                    channel_id@,
                    page.take(count - left),
                ),
            decreases left,
        {
            left -= 1;
            let ghost before = all_heard(out@);
            proof {
                assert(page[count - left - 1] == msgs@[left as int]@);
                assert(page.take(count - left).drop_last() == page.take(count - left - 1));
            }
            if let Some(m) = self.receive_polled(&msgs[left], channel_id, bot_user_id, cursors) {
                let ghost h = m@;
                out.push(m);
                proof {
                    assert(all_heard(out@) == before.push(h));
                }
            }
        }
        proof {
            assert(page.take(count - left) == page);
        }
        out
    }
}

/// The polling of channels: where messages come from, and how far they were
/// heard.
pub struct Poller {
    /// The channels that are configured, if any are.
    pub scope: Option<Vec<String>>,
    /// The channels that were discovered.
    pub discovered: Vec<String>,
    /// The time of the last discovery, or of the start.
    pub last_discovery: Span,
    /// The timestamp of the last message that was heard in each channel.
    pub cursors: CursorTable,
    /// The bot's own user.
    pub bot_user_id: String,
}

impl Poller {
    /// The channels to poll: those that are configured, else those that were
    /// discovered.
    pub open spec fn channels(self) -> Seq<Seq<char>> {
        match self.scope {
            Some(ids) => text::strings(ids@),
            None => text::strings(self.discovered@),
        }
    }

    /// The channels have to be discovered: none are configured, and none are
    /// known or the last time was long ago.
    pub open spec fn discovery_due(self, now: int) -> bool {
        self.scope is None && (self.discovered@.len() == 0 || clock::elapsed(
            now,
            self.last_discovery@,
        ) >= DISCOVERY_INTERVAL_SECS * 1_000_000_000)
    }

    /// The start of polling.
    pub fn new(scope: Option<Vec<String>>, bot_user_id: String, now: Span) -> (r: Poller)
        ensures
            r.scope == scope,
            r.bot_user_id == bot_user_id,
            r.discovered@.len() == 0,
            r.last_discovery == now,
            r.cursors@ == Map::<Seq<char>, Seq<char>>::empty(),
    {
        Poller {
            scope,
            discovered: Vec::new(),
            last_discovery: now,
            cursors: CursorTable::new(),
            bot_user_id,
        }
    }

    /// Whether the channels have to be discovered.
    pub fn needs_discovery(&self, now: Span) -> (r: bool)
        ensures
            r == self.discovery_due(now@),
    {
        self.scope.is_none() && (self.discovered.len() == 0 || now.since(self.last_discovery).nanos
            >= Span::from_secs(DISCOVERY_INTERVAL_SECS).nanos)
    }

    /// Takes in the outcome of a discovery. One that failed changes nothing but
    /// its time.
    pub fn on_discovery(&mut self, found: Option<Vec<String>>, now: Span)
        ensures
            final(self).discovered == match found {
                Some(ids) => ids,
                None => old(self).discovered,
            },
            final(self).last_discovery == now,
            *final(self) == (Poller {
                discovered: final(self).discovered,
                last_discovery: now,
                ..*old(self)
            }),
    {
        if let Some(ids) = found {
            self.discovered = ids;
        }
        self.last_discovery = now;
    }

    /// The channels to poll.
    pub fn targets(&self) -> (r: Vec<String>)
        ensures
            text::strings(r@) == self.channels(),
    {
        match &self.scope {
            Some(ids) => copies(ids),
            None => copies(&self.discovered),
        }
    }

    /// The query for the history of a channel. A channel that is polled for the
    /// first time is asked for what comes after `now_ts`.
    pub fn start_channel(&mut self, channel_id: &str, now_ts: &str) -> (r: Vec<(String, String)>)
        ensures
            outside::fields(r@) == history_fields(
                channel_id@,
                channel::cursors_with(old(self).cursors@, channel_id@, now_ts@)[channel_id@],
            ),
            final(self).cursors@ == channel::cursors_with(
                old(self).cursors@,
                channel_id@,
                now_ts@,
            ),
            *final(self) == (Poller { cursors: final(self).cursors, ..*old(self) }),
    {
        let cursor = SlackChannel::ensure_poll_cursor(&mut self.cursors, channel_id, now_ts);
        history_query(channel_id, cursor.as_str())
    }

    /// Takes in a page of the history of a channel.
    pub fn on_history(&mut self, slack: &SlackChannel, channel_id: &str, payload: &Json) -> (r: Vec<
        Inbound,
    >)
        ensures
            (all_heard(r@), final(self).cursors@) == heard_all(
                slack.rules(),
                old(self).bot_user_id@,
                old(self).cursors@,
                channel_id@,
                page_messages(payload@),
            ),
            *final(self) == (Poller { cursors: final(self).cursors, ..*old(self) }),
    {
        slack.receive_history(payload, channel_id, self.bot_user_id.as_str(), &mut self.cursors)
    }
}

/// Copies of the texts of a list.
fn copies(list: &Vec<String>) -> (r: Vec<String>)
    ensures
        text::strings(r@) == text::strings(list@),
{
    let ghost view = text::strings(list@);
    let mut out: Vec<String> = Vec::new();
    let mut i: usize = 0;
    proof {
        assert(text::strings(out@) == view.take(0));
    }
    while i < list.len()
        invariant
            i <= list.len(),
            view == text::strings(list@),
            text::strings(out@) == view.take(i as int),
        decreases list.len() - i,
    {
        let ghost before = text::strings(out@);
        out.push(list[i].clone());
        proof {
            assert(view[i as int] == list@[i as int]@);
            assert(text::strings(out@) == before.push(view[i as int]));
            assert(view.take(i + 1) == view.take(i as int).push(view[i as int]));
        }
        i += 1;
    }
    proof {
        assert(view.take(i as int) == view);
    }
    out
}

/// The seconds since the Unix epoch, none where the clock stands before it.
pub fn unix_seconds() -> (r: u64)
    ensures
        exists|t: std::time::SystemTime|
            r == match #[trigger] outside::unix_time(t) {
                Some(reading) => reading.0,
                None => 0,
            },
{
    match outside::since_epoch(std::time::SystemTime::now()) {
        Some(reading) => reading.0,
        None => 0,
    }
}

} // verus!
