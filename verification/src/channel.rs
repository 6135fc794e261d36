//! The configuration of the channel and the rules that follow from it.

use vstd::prelude::*;
use crate::clock::Span;
use crate::messages;
use crate::messages::StreamMode;
use crate::tables::{CachedSlackDisplayName, CursorTable, DraftEdits, NameCache};
use crate::text;

verus! {

/// The longest text of a draft update, in bytes.
pub const SLACK_MAX_MESSAGE_LENGTH: usize = 40_000;

/// The time that a fetched display name may be used, in seconds.
pub const SLACK_USER_CACHE_TTL_SECS: u64 = 21_600;

/// A Slack channel: whom it listens to, where, and what it remembers.
pub struct SlackChannel {
    pub bot_token: String,
    pub app_token: Option<String>,
    pub channel_id: Option<String>,
    pub channel_ids: Vec<String>,
    pub allowed_users: Vec<String>,
    pub mention_only: bool,
    pub group_reply_allowed_sender_ids: Vec<String>,
    pub user_display_name_cache: NameCache,
    pub stream_mode: StreamMode,
    pub draft_update_interval_ms: u64,
    pub last_draft_edit: DraftEdits,
}

/// The list names `id`, or everyone by the entry `*`.
pub open spec fn lists(list: Seq<Seq<char>>, id: Seq<char>) -> bool {
    exists|i: int| 0 <= i < list.len() && (#[trigger] list[i] == "*"@ || list[i] == id)
}

/// The text without white space at its ends, if anything is left.
pub open spec fn nonblank(s: Seq<char>) -> Option<Seq<char>> {
    if text::trim(s).len() > 0 {
        Some(text::trim(s))
    } else {
        None
    }
}

/// The channel that a configured value names: none if it is blank or `*`.
pub open spec fn named_channel(s: Option<Seq<char>>) -> Option<Seq<char>> {
    match s {
        Some(t) => if text::trim(t).len() > 0 && text::trim(t) != "*"@ {
            Some(text::trim(t))
        } else {
            None
        },
        None => None,
    }
}

/// The channels that a list of configured values names, each one where it is
/// named first.
pub open spec fn named_channels(list: Seq<Seq<char>>) -> Seq<Seq<char>>
    decreases list.len(),
{
    if list.len() == 0 {
        Seq::empty()
    } else {
        let front = named_channels(list.drop_last());
        match named_channel(Some(list.last())) {
            Some(id) => if front.contains(id) {
                front
            } else {
                front.push(id)
            },
            None => front,
        }
    }
}

/// The channels to listen to: those of the explicit list, else the single one,
/// else none, which stands for all that can be discovered.
pub open spec fn scope(list: Seq<Seq<char>>, single: Option<Seq<char>>) -> Option<Seq<Seq<char>>> {
    if named_channels(list).len() > 0 {
        Some(named_channels(list))
    } else {
        match named_channel(single) {
            Some(id) => Some(seq![id]),
            None => None,
        }
    }
}

/// The texts of the list that are not blank, without white space at their ends.
pub open spec fn nonblank_entries(list: Seq<Seq<char>>) -> Seq<Seq<char>> {
    list.filter(|e: Seq<char>| nonblank(e) is Some).map_values(|e: Seq<char>| text::trim(e))
}

/// The mention of a user.
pub open spec fn mention(user_id: Seq<char>) -> Seq<char> {
    "<@"@ + user_id + ">"@
}

/// The text mentions the user.
pub open spec fn mentions(s: Seq<char>, user_id: Seq<char>) -> bool {
    user_id.len() > 0 && exists|i: int| #[trigger] text::occurs_at(s, i, mention(user_id))
}

/// The text with each mention of the user replaced by a space, without white
/// space at its ends.
pub open spec fn without_mentions(s: Seq<char>, user_id: Seq<char>) -> Seq<char> {
    if user_id.len() == 0 {
        text::trim(s)
    } else {
        text::trim(text::replace_all(s, mention(user_id), seq![' ']))
    }
}

/// What a message says to the bot, if it says anything. Where a mention is
/// required, a message without one says nothing, and mentions are left out.
pub open spec fn content(
    s: Seq<char>,
    require_mention: bool,
    bot_user_id: Seq<char>,
) -> Option<Seq<char>> {
    if !require_mention {
        nonblank(s)
    } else if text::trim(s).len() > 0 && mentions(s, bot_user_id) && without_mentions(
        s,
        bot_user_id,
    ).len() > 0 {
        Some(without_mentions(s, bot_user_id))
    } else {
        None
    }
}

/// The channel is one for groups: its name begins with `C` or `G`.
pub open spec fn group_channel(channel_id: Seq<char>) -> bool {
    channel_id.len() > 0 && (channel_id[0] == 'C' || channel_id[0] == 'G')
}

/// The time that a fetched display name may be used, in nanoseconds.
pub open spec fn cache_ttl() -> int {
    SLACK_USER_CACHE_TTL_SECS * 1_000_000_000
}

/// The name that the cache gives for a user at a time.
pub open spec fn cached_name(
    cache: Map<Seq<char>, (Seq<char>, int)>,
    user_id: Seq<char>,
    now: int,
) -> Option<Seq<char>> {
    if cache.contains_key(user_id) && now <= cache[user_id].1 {
        Some(cache[user_id].0)
    } else {
        None
    }
}

/// The cache once it was asked for a user at a time: an entry that is too old
/// is gone.
pub open spec fn cache_after_read(
    cache: Map<Seq<char>, (Seq<char>, int)>,
    user_id: Seq<char>,
    now: int,
) -> Map<Seq<char>, (Seq<char>, int)> {
    if cached_name(cache, user_id, now) is Some {
        cache
    } else {
        cache.remove(user_id)
    }
}

/// Whether the list names `id`, or everyone by the entry `*`.
fn is_listed(list: &Vec<String>, id: &str) -> (r: bool)
    ensures
        r == lists(text::strings(list@), id@),
{
    let ghost view = text::strings(list@);
    let mut i: usize = 0;
    while i < list.len()
        invariant
            i <= list.len(),
            view == text::strings(list@),
            forall|j: int| 0 <= j < i ==> #[trigger] view[j] != "*"@ && view[j] != id@,
        decreases list.len() - i,
    {
        proof {
            assert(view[i as int] == list@[i as int]@);
        }
        if text::same(list[i].as_str(), "*") || text::same(list[i].as_str(), id) {
            return true;
        }
        i += 1;
    }
    false
}

/// The text without white space at its ends.
fn trimmed(s: &str) -> (r: String)
    ensures
        r@ == text::trim(s@),
{
    let chars = text::chars_of(s);
    text::string_of(text::trim_of(chars.as_slice()))
}

/// The text without white space at its ends, if anything is left.
pub fn nonblank_of(s: &str) -> (r: Option<String>)
    ensures
        messages::opt_text(r) == nonblank(s@),
{
    let t = trimmed(s);
    if t.as_str().is_empty() {
        None
    } else {
        Some(t)
    }
}

impl SlackChannel {
    /// A channel that answers all messages of its users and sends no drafts.
    pub fn new(
        bot_token: String,
        app_token: Option<String>,
        channel_id: Option<String>,
        channel_ids: Vec<String>,
        allowed_users: Vec<String>,
    ) -> (r: SlackChannel)
        ensures
            r.bot_token == bot_token,
            r.app_token == app_token,
            r.channel_id == channel_id,
            r.channel_ids == channel_ids,
            r.allowed_users == allowed_users,
            !r.mention_only,
            r.group_reply_allowed_sender_ids@.len() == 0,
            r.user_display_name_cache@ == Map::<Seq<char>, (Seq<char>, int)>::empty(),
            r.stream_mode == StreamMode::Off,
            r.draft_update_interval_ms == 1000,
            r.last_draft_edit@ == Map::<Seq<char>, int>::empty(),
    {
        SlackChannel {
            bot_token,
            app_token,
            channel_id,
            channel_ids,
            allowed_users,
            mention_only: false,
            group_reply_allowed_sender_ids: Vec::new(),
            user_display_name_cache: NameCache::new(),
            stream_mode: StreamMode::Off,
            draft_update_interval_ms: 1000,
            last_draft_edit: DraftEdits::new(),
        }
    }

    /// Configures the streaming mode for progressive draft updates.
    pub fn with_streaming(self, stream_mode: StreamMode, draft_update_interval_ms: u64) -> (r:
        SlackChannel)
        ensures
            r == (SlackChannel { stream_mode, draft_update_interval_ms, ..self }),
    {
        let mut r = self;
        r.stream_mode = stream_mode;
        r.draft_update_interval_ms = draft_update_interval_ms;
        r
    }

    /// Configures the group-chat trigger policy.
    pub fn with_group_reply_policy(self, mention_only: bool, allowed_sender_ids: Vec<String>) -> (r:
        SlackChannel)
        ensures
            r == (SlackChannel {
                mention_only,
                group_reply_allowed_sender_ids: r.group_reply_allowed_sender_ids,
                ..self
            }),
            text::strictly_sorted(text::strings(r.group_reply_allowed_sender_ids@)),
            text::strings(r.group_reply_allowed_sender_ids@).to_set() == nonblank_entries(
                text::strings(allowed_sender_ids@),
            ).to_set(),
    {
        let mut r = self;
        r.mention_only = mention_only;
        r.group_reply_allowed_sender_ids = Self::normalize_group_reply_allowed_sender_ids(
            allowed_sender_ids,
        );
        r
    }

    /// Checks if a Slack user ID is in the allowlist. An empty list means that
    /// everyone is denied until explicitly configured; `*` means that everyone
    /// is allowed.
    pub fn is_user_allowed(&self, user_id: &str) -> (r: bool)
        ensures
            r == lists(text::strings(self.allowed_users@), user_id@),
    {
        is_listed(&self.allowed_users, user_id)
    }

    /// Whether the sender may talk to the bot in a group without a mention.
    pub fn is_group_sender_trigger_enabled(&self, user_id: &str) -> (r: bool)
        ensures
            r == (text::trim(user_id@).len() > 0 && lists(
                text::strings(self.group_reply_allowed_sender_ids@),
                text::trim(user_id@),
            )),
    {
        match nonblank_of(user_id) {
            Some(id) => is_listed(&self.group_reply_allowed_sender_ids, id.as_str()),
            None => false,
        }
    }

    /// The channel that a configured value names: none if it is blank or `*`.
    pub fn normalized_channel_id(input: Option<&str>) -> (r: Option<String>)
        ensures
            messages::opt_text(r) == named_channel(
                match input {
                    Some(s) => Some(s@),
                    None => None,
                },
            ),
    {
        match input {
            Some(s) => match nonblank_of(s) {
                Some(id) => if text::same(id.as_str(), "*") {
                    None
                } else {
                    Some(id)
                },
                None => None,
            },
            None => None,
        }
    }

    /// The single channel that is configured.
    pub fn configured_channel_id(&self) -> (r: Option<String>)
        ensures
            messages::opt_text(r) == named_channel(messages::opt_text(self.channel_id)),
    {
        match &self.channel_id {
            Some(id) => Self::normalized_channel_id(Some(id.as_str())),
            None => Self::normalized_channel_id(None),
        }
    }

    /// Resolves the effective channel scope: the explicit `channel_ids` list
    /// first, then the single `channel_id`, otherwise wildcard discovery.
    pub fn scoped_channel_ids(&self) -> (r: Option<Vec<String>>)
        ensures
            match r {
                Some(ids) => scope(
                    text::strings(self.channel_ids@),
                    messages::opt_text(self.channel_id),
                ) == Some(text::strings(ids@)),
                None => scope(
                    text::strings(self.channel_ids@),
                    messages::opt_text(self.channel_id),
                ) is None,
            },
    {
        let ghost view = text::strings(self.channel_ids@);
        let mut ids: Vec<String> = Vec::new();
        let mut i: usize = 0;
        proof {
            assert(text::strings(ids@) == named_channels(view.take(0)));
        }
        while i < self.channel_ids.len()
            invariant
                i <= self.channel_ids.len(),
                view == text::strings(self.channel_ids@),
                text::strings(ids@) == named_channels(view.take(i as int)),
            decreases self.channel_ids.len() - i,
        {
            let ghost before = text::strings(ids@);
            proof {
                assert(view.take(i + 1).drop_last() == view.take(i as int));
                assert(view[i as int] == self.channel_ids@[i as int]@);
            }
            if let Some(id) = Self::normalized_channel_id(Some(self.channel_ids[i].as_str())) {
                if !text::holds(&ids, id.as_str()) {
                    let ghost t = id@;
                    ids.push(id);
                    proof {
                        assert(text::strings(ids@) == before.push(t));
                    }
                }
            }
            i += 1;
        }
        proof {
            assert(view.take(i as int) == view);
        }
        if ids.len() > 0 {
            return Some(ids);
        }
        match self.configured_channel_id() {
            Some(id) => {
                let mut single: Vec<String> = Vec::new();
                let ghost t = id@;
                single.push(id);
                proof {
                    assert(text::strings(single@) == seq![t]);
                }
                Some(single)
            },
            None => None,
        }
    }

    /// The token for Socket Mode, if one is configured.
    pub fn configured_app_token(&self) -> (r: Option<String>)
        ensures
            messages::opt_text(r) == match self.app_token {
                Some(t) => nonblank(t@),
                None => None,
            },
    {
        match &self.app_token {
            Some(t) => nonblank_of(t.as_str()),
            None => None,
        }
    }

    /// The senders of a group policy, without white space, blanks and
    /// repetitions, in order.
    pub fn normalize_group_reply_allowed_sender_ids(sender_ids: Vec<String>) -> (r: Vec<String>)
        ensures
            text::strictly_sorted(text::strings(r@)),
            text::strings(r@).to_set() == nonblank_entries(text::strings(sender_ids@)).to_set(),
    {
        let ghost view = text::strings(sender_ids@);
        let ghost keep = |e: Seq<char>| nonblank(e) is Some;
        let ghost trimming = |e: Seq<char>| text::trim(e);
        let mut kept: Vec<String> = Vec::new();
        let mut i: usize = 0;
        proof {
            assert(text::strings(kept@) == view.take(0).filter(keep).map_values(trimming)) by {
                reveal(Seq::filter);
            }
        }
        while i < sender_ids.len()
            invariant
                i <= sender_ids.len(),
                view == text::strings(sender_ids@),
                keep == (|e: Seq<char>| nonblank(e) is Some),
                trimming == (|e: Seq<char>| text::trim(e)),
                text::strings(kept@) == view.take(i as int).filter(keep).map_values(trimming),
            decreases sender_ids.len() - i,
        {
            let ghost before = text::strings(kept@);
            proof {
                assert(view.take(i + 1).drop_last() == view.take(i as int));
                assert(view[i as int] == sender_ids@[i as int]@);
                reveal(Seq::filter);
            }
            if let Some(id) = nonblank_of(sender_ids[i].as_str()) {
                let ghost t = id@;
                kept.push(id);
                proof {
                    assert(text::strings(kept@) == before.push(t));
                    assert(view.take(i + 1).filter(keep) == view.take(i as int).filter(keep).push(
                        view[i as int],
                    ));
                    assert(view.take(i + 1).filter(keep).map_values(trimming) == before.push(t));
                }
            }
            i += 1;
        }
        proof {
            assert(view.take(i as int) == view);
            assert(text::strings(kept@) == nonblank_entries(view));
        }
        text::sort_unique(kept)
    }

    /// The time that a fetched display name may be used.
    pub fn user_cache_ttl() -> (r: Span)
        ensures
            r@ == cache_ttl(),
    {
        Span::from_secs(SLACK_USER_CACHE_TTL_SECS)
    }

    /// A display name without white space at its ends, if anything is left.
    pub fn sanitize_display_name(name: &str) -> (r: Option<String>)
        ensures
            messages::opt_text(r) == nonblank(name@),
    {
        nonblank_of(name)
    }

    /// The cached display name of a user at the given time. An entry that is
    /// too old is dropped.
    pub fn cached_sender_display_name(&mut self, user_id: &str, now: Span) -> (r: Option<String>)
        ensures
            messages::opt_text(r) == cached_name(
                old(self).user_display_name_cache@,
                user_id@,
                now@,
            ),
            final(self).user_display_name_cache@ == cache_after_read(
                old(self).user_display_name_cache@,
                user_id@,
                now@,
            ),
            *final(self) == (SlackChannel {
                user_display_name_cache: final(self).user_display_name_cache,
                ..*old(self)
            }),
    {
        if let Some(entry) = self.user_display_name_cache.get(user_id) {
            if now.nanos <= entry.expires_at.nanos {
                return Some(entry.display_name.clone());
            }
        }
        self.user_display_name_cache.remove(user_id);
        None
    }

    /// Caches the display name of a user at the given time.
    pub fn cache_sender_display_name(&mut self, user_id: &str, display_name: &str, now: Span)
        requires
            now@ + cache_ttl() <= u128::MAX,
        ensures
            final(self).user_display_name_cache@ == old(self).user_display_name_cache@.insert(
                user_id@,
                (display_name@, now@ + cache_ttl()),
            ),
            *final(self) == (SlackChannel {
                user_display_name_cache: final(self).user_display_name_cache,
                ..*old(self)
            }),
    {
        let entry = CachedSlackDisplayName {
            display_name: display_name.to_owned(),
            expires_at: now.plus(Self::user_cache_ttl()),
        };
        self.user_display_name_cache.insert(user_id, entry);
    }

    /// Whether the channel is one for groups.
    pub fn is_group_channel_id(channel_id: &str) -> (r: bool)
        ensures
            r == group_channel(channel_id@),
    {
        let chars = text::chars_of(channel_id);
        chars.len() > 0 && (chars[0] == 'C' || chars[0] == 'G')
    }

    /// Whether the text mentions the bot.
    pub fn contains_bot_mention(s: &str, bot_user_id: &str) -> (r: bool)
        ensures
            r == mentions(s@, bot_user_id@),
    {
        if bot_user_id.is_empty() {
            return false;
        }
        let chars = text::chars_of(s);
        let pattern = mention_of(bot_user_id);
        proof {
            text::lemma_find(s@, mention(bot_user_id@), 0);
        }
        text::find_in(chars.as_slice(), pattern.as_str(), 0).is_some()
    }

    /// The text with each mention of the bot replaced by a space, without white
    /// space at its ends.
    pub fn strip_bot_mentions(s: &str, bot_user_id: &str) -> (r: String)
        ensures
            r@ == without_mentions(s@, bot_user_id@),
    {
        if bot_user_id.is_empty() {
            return trimmed(s);
        }
        let chars = text::chars_of(s);
        let pattern = mention_of(bot_user_id);
        proof {
            reveal_strlit("<@");
        }
        let replaced = text::replace_in(chars.as_slice(), pattern.as_str(), ' ');
        text::string_of(text::trim_of(replaced.as_slice()))
    }

    /// What a message says to the bot, if it says anything.
    pub fn normalize_incoming_content(s: &str, require_mention: bool, bot_user_id: &str) -> (r:
        Option<String>)
        ensures
            messages::opt_text(r) == content(s@, require_mention, bot_user_id@),
    {
        if trimmed(s).as_str().is_empty() {
            return None;
        }
        if require_mention && !Self::contains_bot_mention(s, bot_user_id) {
            return None;
        }
        let normalized = if require_mention {
            Self::strip_bot_mentions(s, bot_user_id)
        } else {
            trimmed(s)
        };
        if normalized.as_str().is_empty() {
            return None;
        }
        Some(normalized)
    }

    /// The cursor of a channel. A channel that has none gets `now_ts`, so that
    /// its history is not replayed.
    pub fn ensure_poll_cursor(cursors: &mut CursorTable, channel_id: &str, now_ts: &str) -> (r:
        String)
        ensures
            final(cursors)@ == cursors_with(old(cursors)@, channel_id@, now_ts@),
            r@ == final(cursors)@[channel_id@],
    {
        match cursors.get(channel_id) {
            Some(ts) => ts.to_owned(),
            None => {
                cursors.insert(channel_id, now_ts);
                now_ts.to_owned()
            },
        }
    }

    /// The name of this kind of channel.
    pub fn name(&self) -> (r: &'static str)
        ensures
            r@ == "slack"@,
    {
        "slack"
    }

    /// Whether drafts are shown while they are being written.
    pub fn supports_draft_updates(&self) -> (r: bool)
        ensures
            r == (self.stream_mode != StreamMode::Off),
    {
        self.stream_mode != StreamMode::Off
    }
}

/// The cursors once `channel_id` has one: `now_ts` unless it had one before.
pub open spec fn cursors_with(
    cursors: Map<Seq<char>, Seq<char>>,
    channel_id: Seq<char>,
    now_ts: Seq<char>,
) -> Map<Seq<char>, Seq<char>> {
    if cursors.contains_key(channel_id) {
        cursors
    } else {
        cursors.insert(channel_id, now_ts)
    }
}

/// The mention of a user.
fn mention_of(user_id: &str) -> (r: String)
    ensures
        r@ == mention(user_id@),
{
    let mut out: String = "<@".to_owned();
    text::push_str(&mut out, user_id);
    text::push_str(&mut out, ">");
    out
}

} // verus!
