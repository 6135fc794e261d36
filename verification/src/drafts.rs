//! Messages to send, and drafts that are edited while they grow.

use vstd::prelude::*;
use crate::api;
use crate::api::{ApiError, Failure};
use crate::channel;
use crate::channel::SlackChannel;
use crate::clock;
use crate::clock::Span;
use crate::json;
use crate::json::{Json, Tree};
use crate::messages;
use crate::messages::{SendMessage, StreamMode};
use crate::mrkdwn::document;
use crate::outside;
use crate::text;

verus! {

/// The number of bytes of a character in UTF-8.
pub open spec fn width(c: char) -> int {
    if (c as u32) < 0x80 {
        1
    } else if (c as u32) < 0x800 {
        2
    } else if (c as u32) < 0x10000 {
        3
    } else {
        4
    }
}

/// The number of bytes of a text in UTF-8.
pub open spec fn bytes_len(s: Seq<char>) -> int
    decreases s.len(),
{
    if s.len() == 0 {
        0
    } else {
        bytes_len(s.drop_last()) + width(s.last())
    }
}

/// The longest beginning of a text that has no more than the given number of
/// bytes.
pub open spec fn clipped(s: Seq<char>, limit: int) -> Seq<char>
    decreases s.len(),
{
    if s.len() == 0 || bytes_len(s) <= limit {
        s
    } else {
        clipped(s.drop_last(), limit)
    }
}

/// The members of a request to post a text.
pub open spec fn post_fields(
    recipient: Seq<char>,
    content: Seq<char>,
    thread_ts: Option<Seq<char>>,
) -> Seq<(Seq<char>, Seq<char>)> {
    let base = seq![("channel"@, recipient), ("text"@, content)];
    match thread_ts {
        Some(ts) => base.push(("thread_ts"@, ts)),
        None => base,
    }
}

/// The members of a request to replace the text of a message.
pub open spec fn update_fields(
    recipient: Seq<char>,
    message_id: Seq<char>,
    content: Seq<char>,
) -> Seq<(Seq<char>, Seq<char>)> {
    seq![("channel"@, recipient), ("ts"@, message_id), ("text"@, content)]
}

/// The members of a request to delete a message.
pub open spec fn delete_fields(recipient: Seq<char>, message_id: Seq<char>) -> Seq<
    (Seq<char>, Seq<char>),
> {
    seq![("channel"@, recipient), ("ts"@, message_id)]
}

/// The text of a draft before anything was written.
pub open spec fn first_text(content: Seq<char>) -> Seq<char> {
    if content.len() == 0 {
        "..."@
    } else {
        content
    }
}

/// The last edit for a recipient was so short ago that another has to wait.
pub open spec fn too_soon(
    edits: Map<Seq<char>, int>,
    recipient: Seq<char>,
    interval_ms: int,
    now: int,
) -> bool {
    edits.contains_key(recipient) && clock::capped(
        clock::elapsed(now, edits[recipient]) / 1_000_000,
    ) < interval_ms
}

/// What a reply to a new draft yields: the identifier of the message, if the
/// reply has one, or the failure.
pub open spec fn posted_draft(status: u16, payload: Tree) -> Result<Option<Seq<char>>, Failure> {
    match api::reply_failure(status, payload) {
        Some(f) => Err(f),
        None => Ok(json::text_member(payload, "ts"@)),
    }
}

/// A reply says that a text was replaced.
pub open spec fn updated(status: u16, payload: Tree) -> bool {
    api::success(status) && !api::refused(payload)
}

/// The number of bytes of a character in UTF-8.
fn width_of(c: char) -> (r: usize)
    ensures
        r == width(c),
        1 <= r <= 4,
{
    let code: u32 = c as u32;
    if code < 0x80 {
        1
    } else if code < 0x800 {
        2
    } else if code < 0x10000 {
        3
    } else {
        4
    }
}

/// More characters make no fewer bytes.
pub proof fn lemma_bytes_grow(s: Seq<char>, k: int)
    requires
        0 <= k <= s.len(),
    ensures
        0 <= bytes_len(s.take(k)) <= bytes_len(s),
    decreases s.len(),
{
    if k < s.len() {
        lemma_bytes_grow(s.drop_last(), k);
        assert(s.drop_last().take(k) == s.take(k));
    } else {
        assert(s.take(k) == s);
        if s.len() > 0 {
            lemma_bytes_grow(s.drop_last(), 0);
        }
    }
}

/// A beginning that fits, while one more character does not, is the longest.
proof fn lemma_clipped(s: Seq<char>, k: int, limit: int)
    requires
        0 <= k < s.len(),
        bytes_len(s.take(k)) <= limit,
        bytes_len(s.take(k + 1)) > limit,
    ensures
        clipped(s, limit) == s.take(k),
    decreases s.len(),
{
    lemma_bytes_grow(s, k + 1);
    if k + 1 < s.len() {
        assert(s.drop_last().take(k) == s.take(k));
        assert(s.drop_last().take(k + 1) == s.take(k + 1));
        lemma_clipped(s.drop_last(), k, limit);
    } else {
        reveal_with_fuel(clipped, 2);
        assert(s.drop_last() == s.take(k));
        assert(s.take(k + 1) == s);
    }
}

/// The longest beginning of a text that has no more than the given number of
/// bytes.
pub fn clip(s: &str, limit: usize) -> (r: String)
    requires
        limit <= usize::MAX - 4,
    ensures
        r@ == clipped(s@, limit as int),
{
    let chars = text::chars_of(s);
    let mut used: usize = 0;
    let mut i: usize = 0;
    proof {
        assert(s@.take(0) == Seq::<char>::empty());
    }
    while i < chars.len()
        invariant
            i <= chars.len(),
            chars@ == s@,
            limit <= usize::MAX - 4,
            used <= limit,
            used == bytes_len(s@.take(i as int)),
        decreases chars.len() - i,
    {
        let next: usize = used + width_of(chars[i]);
        proof {
            assert(s@.take(i + 1).drop_last() == s@.take(i as int));
        }
        if next > limit {
            proof {
                lemma_clipped(s@, i as int, limit as int);
            }
            return text::string_of(vstd::slice::slice_subrange(chars.as_slice(), 0, i));
        }
        used = next;
        i += 1;
    }
    proof {
        assert(s@.take(i as int) == s@);
    }
    s.to_owned()
}

/// Whether a text has no more than the given number of bytes.
pub fn fits(s: &str, limit: usize) -> (r: bool)
    requires
        limit <= usize::MAX - 4,
    ensures
        r == (bytes_len(s@) <= limit),
{
    let chars = text::chars_of(s);
    let mut used: usize = 0;
    let mut i: usize = 0;
    proof {
        assert(s@.take(0) == Seq::<char>::empty());
    }
    while i < chars.len()
        invariant
            i <= chars.len(),
            chars@ == s@,
            limit <= usize::MAX - 4,
            used <= limit,
            used == bytes_len(s@.take(i as int)),
        decreases chars.len() - i,
    {
        used = used + width_of(chars[i]);
        proof {
            assert(s@.take(i + 1).drop_last() == s@.take(i as int));
            lemma_bytes_grow(s@, i + 1);
        }
        if used > limit {
            return false;
        }
        i += 1;
    }
    proof {
        assert(s@.take(i as int) == s@);
    }
    true
}

/// The members of a request to post a text.
fn post_members(recipient: &str, content: &str, thread_ts: &Option<String>) -> (r: Vec<
    (String, String),
>)
    ensures
        outside::fields(r@) == post_fields(recipient@, content@, messages::opt_text(*thread_ts)),
{
    let mut out: Vec<(String, String)> = Vec::new();
    api::push_field(&mut out, "channel", recipient);
    api::push_field(&mut out, "text", content);
    proof {
        assert(outside::fields(out@) == post_fields(recipient@, content@, None));
    }
    if let Some(ts) = thread_ts {
        api::push_field(&mut out, "thread_ts", ts.as_str());
    }
    out
}

/// The members of a request to replace the text of a message.
fn update_members(recipient: &str, message_id: &str, content: &str) -> (r: Vec<(String, String)>)
    ensures
        outside::fields(r@) == update_fields(recipient@, message_id@, content@),
{
    let mut out = delete_members(recipient, message_id);
    api::push_field(&mut out, "text", content);
    proof {
        assert(outside::fields(out@) == update_fields(recipient@, message_id@, content@));
    }
    out
}

/// The members of a request to delete a message.
pub fn delete_members(recipient: &str, message_id: &str) -> (r: Vec<(String, String)>)
    ensures
        outside::fields(r@) == delete_fields(recipient@, message_id@),
{
    let mut out: Vec<(String, String)> = Vec::new();
    api::push_field(&mut out, "channel", recipient);
    api::push_field(&mut out, "ts", message_id);
    proof {
        assert(outside::fields(out@) == delete_fields(recipient@, message_id@));
    }
    out
}

/// How a draft becomes final.
#[derive(Debug)]
pub enum Finalization {
    /// Replace the text of the draft by the request with the given members.
    Update(Vec<(String, String)>),
    /// Delete the draft and send the final message.
    Replace,
}

impl SlackChannel {
    /// The members of the request that sends a message.
    pub fn send(&self, message: &SendMessage) -> (r: Vec<(String, String)>)
        ensures
            outside::fields(r@) == post_fields(
                message.recipient@,
                document::mrkdwn(message.content@),
                messages::opt_text(message.thread_ts),
            ),
    {
        let content = document::markdown_to_slack_mrkdwn(message.content.as_str());
        post_members(message.recipient.as_str(), content.as_str(), &message.thread_ts)
    }

    /// The members of the request that posts a new draft, if there are drafts.
    pub fn send_draft(&self, message: &SendMessage) -> (r: Option<Vec<(String, String)>>)
        ensures
            r is Some == (self.stream_mode != StreamMode::Off),
            r matches Some(members) ==> outside::fields(members@) == post_fields(
                message.recipient@,
                first_text(message.content@),
                messages::opt_text(message.thread_ts),
            ),
    {
        if self.stream_mode == StreamMode::Off {
            return None;
        }
        let content = if message.content.as_str().is_empty() {
            "..."
        } else {
            message.content.as_str()
        };
        Some(post_members(message.recipient.as_str(), content, &message.thread_ts))
    }

    /// Takes in the payload of the reply to a new draft. The time of a draft
    /// that has an identifier is kept.
    pub fn draft_posted(&mut self, recipient: &str, status: u16, payload: &Json, now: Span) -> (r:
        Result<Option<String>, ApiError>)
        ensures
            match r {
                Ok(ts) => posted_draft(status, payload@) == Ok::<Option<Seq<char>>, Failure>(
                    messages::opt_text(ts),
                ),
                Err(e) => posted_draft(status, payload@) == Err::<Option<Seq<char>>, Failure>(e@),
            },
            final(self).last_draft_edit@ == if posted_draft(status, payload@) matches Ok(Some(_)) {
                old(self).last_draft_edit@.insert(recipient@, now@)
            } else {
                old(self).last_draft_edit@
            },
            *final(self) == (SlackChannel {
                last_draft_edit: final(self).last_draft_edit,
                ..*old(self)
            }),
    {
        match api::check_payload(status, payload) {
            Ok(_) => match payload.get_str("ts") {
                Some(ts) => {
                    self.last_draft_edit.insert(recipient, now);
                    Ok(Some(ts.to_owned()))
                },
                None => Ok(None),
            },
            Err(e) => Err(e),
        }
    }

    /// Takes in the reply to a new draft.
    pub fn on_draft_reply(&mut self, recipient: &str, status: u16, body: &str, now: Span) -> (r:
        Result<Option<String>, ApiError>)
        ensures
            match r {
                Ok(ts) => posted_draft(status, json::body_value(body@)) == Ok::<
                    Option<Seq<char>>,
                    Failure,
                >(messages::opt_text(ts)),
                Err(e) => posted_draft(status, json::body_value(body@)) == Err::<
                    Option<Seq<char>>,
                    Failure,
                >(e@),
            },
            final(self).last_draft_edit@ == if posted_draft(status, json::body_value(body@))
                matches Ok(Some(_)) {
                old(self).last_draft_edit@.insert(recipient@, now@)
            } else {
                old(self).last_draft_edit@
            },
            *final(self) == (SlackChannel {
                last_draft_edit: final(self).last_draft_edit,
                ..*old(self)
            }),
    {
        let payload = json::parse_body(body);
        self.draft_posted(recipient, status, &payload, now)
    }

    /// The members of the request that updates a draft, unless the last edit
    /// was too short ago. A text that is too long is cut at a character.
    pub fn update_draft(&self, recipient: &str, message_id: &str, s: &str, now: Span) -> (r: Option<
        Vec<(String, String)>,
    >)
        ensures
            r is None == too_soon(
                self.last_draft_edit@,
                recipient@,
                self.draft_update_interval_ms as int,
                now@,
            ),
            r matches Some(members) ==> outside::fields(members@) == update_fields(
                recipient@,
                message_id@,
                clipped(s@, channel::SLACK_MAX_MESSAGE_LENGTH as int),
            ),
    {
        if let Some(last) = self.last_draft_edit.get(recipient) {
            if now.since(last).as_millis() < self.draft_update_interval_ms {
                return None;
            }
        }
        let content = clip(s, channel::SLACK_MAX_MESSAGE_LENGTH);
        Some(update_members(recipient, message_id, content.as_str()))
    }

    /// Takes in the HTTP status of the reply to an update. The time of an
    /// update that succeeded is kept.
    pub fn on_update_reply(&mut self, recipient: &str, status: u16, now: Span)
        ensures
            final(self).last_draft_edit@ == if api::success(status) {
                old(self).last_draft_edit@.insert(recipient@, now@)
            } else {
                old(self).last_draft_edit@
            },
            *final(self) == (SlackChannel {
                last_draft_edit: final(self).last_draft_edit,
                ..*old(self)
            }),
    {
        if api::is_success(status) {
            self.last_draft_edit.insert(recipient, now);
        }
    }

    /// Starts to make a draft final: its time is dropped. The result holds the
    /// message that is sent in place of the draft where that is necessary.
    pub fn finalize_draft(&mut self, recipient: &str, message_id: &str, s: &str) -> (r: (
        Finalization,
        SendMessage,
    ))
        ensures
            r.0 is Update == (bytes_len(document::mrkdwn(s@)) <= channel::SLACK_MAX_MESSAGE_LENGTH),
            r.0 matches Finalization::Update(members) ==> outside::fields(members@)
                == update_fields(recipient@, message_id@, document::mrkdwn(s@)),
            r.1.content@ == document::mrkdwn(s@),
            r.1.recipient@ == recipient@,
            r.1.thread_ts is None,
            final(self).last_draft_edit@ == old(self).last_draft_edit@.remove(recipient@),
            *final(self) == (SlackChannel {
                last_draft_edit: final(self).last_draft_edit,
                ..*old(self)
            }),
    {
        self.last_draft_edit.remove(recipient);
        let formatted = document::markdown_to_slack_mrkdwn(s);
        let message = SendMessage::new(formatted.as_str(), recipient);
        if fits(formatted.as_str(), channel::SLACK_MAX_MESSAGE_LENGTH) {
            let members = update_members(recipient, message_id, formatted.as_str());
            (Finalization::Update(members), message)
        } else {
            (Finalization::Replace, message)
        }
    }

    /// Cancels a draft: its time is dropped. The result holds the members of
    /// the request that deletes it.
    pub fn cancel_draft(&mut self, recipient: &str, message_id: &str) -> (r: Vec<(String, String)>)
        ensures
            outside::fields(r@) == delete_fields(recipient@, message_id@),
            final(self).last_draft_edit@ == old(self).last_draft_edit@.remove(recipient@),
            *final(self) == (SlackChannel {
                last_draft_edit: final(self).last_draft_edit,
                ..*old(self)
            }),
    {
        self.last_draft_edit.remove(recipient);
        delete_members(recipient, message_id)
    }
}

/// Whether a payload says that a text was replaced.
pub fn is_updated(status: u16, payload: &Json) -> (r: bool)
    ensures
        r == updated(status, payload@),
{
    api::is_success(status) && !api::is_refused(payload)
}

/// Whether a reply says that the draft became final. Where it does not, the
/// draft is deleted and the final message sent.
pub fn on_finalize_reply(status: u16, body: &str) -> (r: bool)
    ensures
        r == updated(status, json::body_value(body@)),
{
    let payload = json::parse_body(body);
    is_updated(status, &payload)
}

} // verus!
