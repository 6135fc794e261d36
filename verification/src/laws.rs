//! What holds of the channel as a whole.

use vstd::prelude::*;
use crate::channel;
use crate::clock;
use crate::drafts;
use crate::inbound;
use crate::inbound::{Heard, Rules};
use crate::json;
use crate::json::Tree;
use crate::outside;
use crate::polling;
use crate::sockets;
use crate::sockets::StepOn;
use crate::text;
use crate::users;
use crate::users::Lookup;

verus! {

/// An empty list names no one: an empty allowlist denies everyone.
pub proof fn law_empty_list_denies_everyone(user_id: Seq<char>)
    ensures
        !channel::lists(Seq::empty(), user_id),
{
}

/// A list with the entry `*` names everyone.
pub proof fn law_wildcard_allows_everyone(list: Seq<Seq<char>>, user_id: Seq<char>)
    requires
        list.contains("*"@),
    ensures
        channel::lists(list, user_id),
{
    let i = choose|i: int| 0 <= i < list.len() && list[i] == "*"@;
    assert(list[i] == "*"@);
}

/// Without the entry `*` a list names its entries and no one else: no prefix,
/// no other case.
pub proof fn law_allowlist_matches_exactly(list: Seq<Seq<char>>, user_id: Seq<char>)
    requires
        !list.contains("*"@),
    ensures
        channel::lists(list, user_id) == list.contains(user_id),
{
    if list.contains(user_id) {
        let i = choose|i: int| 0 <= i < list.len() && list[i] == user_id;
        assert(list[i] == user_id);
    }
}

/// White space is trimmed once: what is left has none at its ends.
pub proof fn law_trim_is_idempotent(s: Seq<char>)
    ensures
        text::trim(text::trim(s)) == text::trim(s),
        text::trim(s).len() > 0 ==> !text::white_space(text::trim(s)[0]) && !text::white_space(
            text::trim(s).last(),
        ),
{
    lemma_trim_start(s);
    lemma_trim_end(text::trim_start(s));
    let t = text::trim(s);
    if t.len() > 0 {
        assert(t[0] == text::trim_start(s)[0]);
    }
}

/// Trimming the start leaves an end of the text that starts with no white
/// space.
pub proof fn lemma_trim_start(s: Seq<char>)
    ensures
        text::trim_start(s).len() > 0 ==> !text::white_space(text::trim_start(s)[0]),
        text::trim_start(s).len() <= s.len(),
        text::trim_start(s) == s.skip(s.len() - text::trim_start(s).len()),
    decreases s.len(),
{
    if s.len() > 0 && text::white_space(s[0]) {
        lemma_trim_start(s.skip(1));
    }
}

/// Trimming the end leaves a beginning of the text that ends with no white
/// space.
pub proof fn lemma_trim_end(s: Seq<char>)
    ensures
        text::trim_end(s).len() > 0 ==> !text::white_space(text::trim_end(s).last()),
        text::trim_end(s).len() <= s.len(),
        text::trim_end(s) == s.take(text::trim_end(s).len() as int),
    decreases s.len(),
{
    if s.len() > 0 && text::white_space(s[s.len() - 1]) {
        lemma_trim_end(s.take(s.len() - 1));
    }
}

/// A scope is never empty, and names each of its channels once, without white
/// space at the ends; none of them is blank or `*`.
pub proof fn law_scope_is_clean(list: Seq<Seq<char>>, single: Option<Seq<char>>)
    ensures
        channel::scope(list, single) matches Some(ids) ==> {
            &&& ids.len() > 0
            &&& ids.no_duplicates()
            &&& forall|i: int|
                0 <= i < ids.len() ==> (#[trigger] ids[i]).len() > 0 && ids[i] != "*"@
                    && text::trim(ids[i]) == ids[i]
        },
{
    lemma_named_channels(list);
    if let Some(s) = single {
        law_trim_is_idempotent(s);
    }
}

/// The channels that a list names are clean, and each is named once.
proof fn lemma_named_channels(list: Seq<Seq<char>>)
    ensures
        channel::named_channels(list).no_duplicates(),
        forall|i: int|
            0 <= i < channel::named_channels(list).len() ==> (
            #[trigger] channel::named_channels(list)[i]).len() > 0 && channel::named_channels(
                list,
            )[i] != "*"@ && text::trim(channel::named_channels(list)[i]) == channel::named_channels(
                list,
            )[i],
    decreases list.len(),
{
    if list.len() > 0 {
        lemma_named_channels(list.drop_last());
        law_trim_is_idempotent(list.last());
    }
}

/// Where the explicit list names a channel, the single one does not count.
pub proof fn law_explicit_list_comes_first(
    list: Seq<Seq<char>>,
    single: Option<Seq<char>>,
    other: Option<Seq<char>>,
    i: int,
)
    requires
        0 <= i < list.len(),
        channel::named_channel(Some(list[i])) is Some,
    ensures
        channel::scope(list, single) == channel::scope(list, other),
        channel::scope(list, single) matches Some(ids) && ids.contains(text::trim(list[i])),
    decreases list.len(),
{
    lemma_named(list, i);
}

/// A list names the channel of each of its entries.
proof fn lemma_named(list: Seq<Seq<char>>, i: int)
    requires
        0 <= i < list.len(),
        channel::named_channel(Some(list[i])) is Some,
    ensures
        channel::named_channels(list).contains(text::trim(list[i])),
    decreases list.len(),
{
    let id = text::trim(list[i]);
    let front = channel::named_channels(list.drop_last());
    if i < list.len() - 1 {
        lemma_named(list.drop_last(), i);
        let k = choose|k: int| 0 <= k < front.len() && front[k] == id;
        assert(channel::named_channels(list)[k] == id);
    } else if !front.contains(id) {
        assert(channel::named_channels(list)[front.len() as int] == id);
    }
}

/// Where every configured value is blank or `*`, there is no scope: the channel
/// listens to all that it can discover.
pub proof fn law_wildcards_give_no_scope(list: Seq<Seq<char>>, single: Option<Seq<char>>)
    requires
        forall|i: int|
            0 <= i < list.len() ==> channel::named_channel(Some(#[trigger] list[i])) is None,
        channel::named_channel(single) is None,
    ensures
        channel::scope(list, single) is None,
    decreases list.len(),
{
    if list.len() > 0 {
        let front = list.drop_last();
        assert forall|i: int| 0 <= i < front.len() implies channel::named_channel(
            Some(#[trigger] front[i]),
        ) is None by {
            assert(front[i] == list[i]);
        }
        law_wildcards_give_no_scope(front, single);
        assert(channel::named_channel(Some(list.last())) is None);
    }
}

/// A cached name is given back until its time is over, and nothing after that.
/// The names of other users stay as they are.
pub proof fn law_cached_name_is_given_back(
    cache: Map<Seq<char>, (Seq<char>, int)>,
    user_id: Seq<char>,
    name: Seq<char>,
    now: int,
    other: Seq<char>,
    later: int,
)
    requires
        other != user_id,
    ensures
        ({
            let after = cache.insert(user_id, (name, now + channel::cache_ttl()));
            &&& channel::cached_name(after, user_id, later) == if later <= now
                + channel::cache_ttl() {
                Some(name)
            } else {
                None
            }
            &&& channel::cached_name(after, other, later) == channel::cached_name(
                cache,
                other,
                later,
            )
        }),
{
}

/// Asking the cache does not change what it answers at that time or later.
pub proof fn law_asking_the_cache_changes_no_answer(
    cache: Map<Seq<char>, (Seq<char>, int)>,
    user_id: Seq<char>,
    now: int,
    other: Seq<char>,
    later: int,
)
    requires
        now <= later,
    ensures
        channel::cached_name(channel::cache_after_read(cache, user_id, now), other, later)
            == channel::cached_name(cache, other, later),
{
}

/// A sender whose name was fetched is known by it until the name's time is
/// over; then the name is fetched anew.
pub proof fn law_fetched_name_is_known(
    cache: Map<Seq<char>, (Seq<char>, int)>,
    user_id: Seq<char>,
    name: Seq<char>,
    fetched_at: int,
    later: int,
)
    requires
        text::trim(user_id).len() > 0,
    ensures
        ({
            let id = text::trim(user_id);
            let after = cache.insert(id, (name, fetched_at + channel::cache_ttl()));
            users::lookup(after, user_id, later) == if later <= fetched_at + channel::cache_ttl() {
                Lookup::Known(name)
            } else {
                Lookup::Fetch(id)
            }
        }),
{
}

/// What a message says to the bot is never blank, and has no white space at its
/// ends. Where a mention is required, the message has one.
pub proof fn law_content_is_not_blank(s: Seq<char>, require_mention: bool, bot_user_id: Seq<char>)
    ensures
        channel::content(s, require_mention, bot_user_id) matches Some(c) ==> {
            &&& c.len() > 0
            &&& text::trim(c) == c
            &&& require_mention ==> channel::mentions(s, bot_user_id)
        },
{
    law_trim_is_idempotent(s);
    law_trim_is_idempotent(text::replace_all(s, channel::mention(bot_user_id), seq![' ']));
}

/// A cursor is set once: asking for it again, with whatever time, neither
/// changes it nor that of another channel.
pub proof fn law_poll_cursor_is_kept(
    cursors: Map<Seq<char>, Seq<char>>,
    channel_id: Seq<char>,
    now_ts: Seq<char>,
    later_ts: Seq<char>,
)
    ensures
        ({
            let once = channel::cursors_with(cursors, channel_id, now_ts);
            &&& once.contains_key(channel_id)
            &&& channel::cursors_with(once, channel_id, later_ts) == once
            &&& cursors.contains_key(channel_id) ==> once[channel_id] == cursors[channel_id]
            &&& !cursors.contains_key(channel_id) ==> once[channel_id] == now_ts
            &&& forall|other: Seq<char>|
                other != channel_id ==> #[trigger] inbound::last_seen(once, other)
                    == inbound::last_seen(cursors, other)
        }),
{
}

/// A message that is heard comes from an allowed user who is not the bot, is no
/// notice of another kind, and is newer than the last one of its channel. Where
/// a mention is needed, it has one.
pub proof fn law_heard_messages_obey_the_rules(
    rules: Rules,
    bot_user_id: Seq<char>,
    cursors: Map<Seq<char>, Seq<char>>,
    channel_id: Seq<char>,
    user: Seq<char>,
    msg: Tree,
)
    ensures
        inbound::heard(rules, bot_user_id, cursors, channel_id, user, msg) matches Some(m) ==> {
            &&& m.user == user && m.channel_id == channel_id
            &&& channel::lists(rules.allowed, user)
            &&& user != bot_user_id
            &&& json::member(msg, "subtype"@) is None
            &&& text::precedes(inbound::last_seen(cursors, channel_id), m.ts)
            &&& m.content.len() > 0
            &&& m.thread_ts is Some
            &&& inbound::mention_needed(rules, channel_id, user) ==> channel::mentions(
                inbound::text_or(msg, "text"@, Seq::empty()),
                bot_user_id,
            )
        },
{
    law_content_is_not_blank(
        inbound::text_or(msg, "text"@, Seq::empty()),
        inbound::mention_needed(rules, channel_id, user),
        bot_user_id,
    );
}

/// With an empty allowlist nothing is heard.
pub proof fn law_nothing_is_heard_without_an_allowlist(
    rules: Rules,
    bot_user_id: Seq<char>,
    cursors: Map<Seq<char>, Seq<char>>,
    channel_id: Seq<char>,
    user: Seq<char>,
    msg: Tree,
)
    requires
        rules.allowed.len() == 0,
    ensures
        inbound::heard(rules, bot_user_id, cursors, channel_id, user, msg) is None,
{
}

/// Outside of groups, and without the rule on mentions, no mention is needed. A
/// sender of the group policy needs none either.
pub proof fn law_mentions_are_needed_in_groups_only(
    rules: Rules,
    channel_id: Seq<char>,
    user: Seq<char>,
)
    ensures
        inbound::mention_needed(rules, channel_id, user) ==> rules.mention_only
            && channel::group_channel(channel_id),
        text::trim(user).len() > 0 && rules.group_senders.contains(text::trim(user))
            ==> !inbound::mention_needed(rules, channel_id, user),
        text::trim(user).len() > 0 && rules.group_senders.contains("*"@)
            ==> !inbound::mention_needed(rules, channel_id, user),
{
    if rules.group_senders.contains("*"@) {
        law_wildcard_allows_everyone(rules.group_senders, text::trim(user));
    } else {
        law_allowlist_matches_exactly(rules.group_senders, text::trim(user));
    }
}

/// Once a message was heard, no message of its channel with its timestamp or an
/// earlier one is heard: nothing is replayed.
pub proof fn law_no_message_is_heard_twice(
    rules: Rules,
    bot_user_id: Seq<char>,
    cursors: Map<Seq<char>, Seq<char>>,
    m: Heard,
    user: Seq<char>,
    msg: Tree,
)
    requires
        !text::precedes(m.ts, inbound::text_or(msg, "ts"@, Seq::empty())),
    ensures
        inbound::heard(
            rules,
            bot_user_id,
            inbound::cursors_after(cursors, Some(m)),
            m.channel_id,
            user,
            msg,
        ) is None,
{
}

/// A channel that is polled for the first time is not heard on what was said
/// before.
pub proof fn law_history_is_not_replayed(
    rules: Rules,
    bot_user_id: Seq<char>,
    cursors: Map<Seq<char>, Seq<char>>,
    channel_id: Seq<char>,
    now_ts: Seq<char>,
    msg: Tree,
)
    requires
        !cursors.contains_key(channel_id),
        !text::precedes(now_ts, inbound::text_or(msg, "ts"@, Seq::empty())),
    ensures
        polling::heard_polled(
            rules,
            bot_user_id,
            channel::cursors_with(cursors, channel_id, now_ts),
            channel_id,
            msg,
        ) is None,
{
}

/// The timestamps of messages.
pub open spec fn timestamps(ms: Seq<Heard>) -> Seq<Seq<char>> {
    ms.map_values(|m: Heard| m.ts)
}

/// The messages that are heard of a page come in the order of their timestamps,
/// each of them after the cursor; the cursor moves on to the last of them. The
/// cursors of other channels stay where they are.
pub proof fn law_pages_are_heard_in_order(
    rules: Rules,
    bot_user_id: Seq<char>,
    cursors: Map<Seq<char>, Seq<char>>,
    channel_id: Seq<char>,
    msgs: Seq<Tree>,
)
    ensures
        ({
            let (ms, then) = polling::heard_all(rules, bot_user_id, cursors, channel_id, msgs);
            &&& text::strictly_sorted(timestamps(ms))
            &&& forall|i: int|
                0 <= i < ms.len() ==> (#[trigger] ms[i]).channel_id == channel_id && text::precedes(
                    inbound::last_seen(cursors, channel_id),
                    ms[i].ts,
                )
            &&& then == if ms.len() == 0 {
                cursors
            } else {
                cursors.insert(channel_id, ms.last().ts)
            }
        }),
    decreases msgs.len(),
{
    if msgs.len() > 0 {
        law_pages_are_heard_in_order(rules, bot_user_id, cursors, channel_id, msgs.drop_last());
        let (front, mid) = polling::heard_all(
            rules,
            bot_user_id,
            cursors,
            channel_id,
            msgs.drop_last(),
        );
        if let Some(m) = polling::heard_polled(rules, bot_user_id, mid, channel_id, msgs.last()) {
            let ms = front.push(m);
            let start = inbound::last_seen(cursors, channel_id);
            assert(mid.insert(channel_id, m.ts) == cursors.insert(channel_id, m.ts));
            if front.len() > 0 {
                assert(text::precedes(start, front.last().ts));
                text::lemma_order_transitive(start, front.last().ts, m.ts);
            }
            assert(timestamps(ms) == timestamps(front).push(m.ts));
            assert forall|i: int, j: int| 0 <= i < j < ms.len() implies text::precedes(
                #[trigger] timestamps(ms)[i],
                #[trigger] timestamps(ms)[j],
            ) by {
                if j == front.len() {
                    assert(timestamps(ms)[i] == timestamps(front)[i]);
                    if i < front.len() - 1 {
                        assert(text::precedes(
                            timestamps(front)[i],
                            timestamps(front)[front.len() - 1],
                        ));
                        text::lemma_order_transitive(
                            timestamps(front)[i],
                            timestamps(front)[front.len() - 1],
                            m.ts,
                        );
                    }
                } else {
                    assert(timestamps(ms)[i] == timestamps(front)[i]);
                    assert(timestamps(ms)[j] == timestamps(front)[j]);
                }
            }
        }
    }
}

/// A page that was heard gives nothing when it comes again.
pub proof fn law_a_page_is_heard_once(
    rules: Rules,
    bot_user_id: Seq<char>,
    cursors: Map<Seq<char>, Seq<char>>,
    channel_id: Seq<char>,
    msgs: Seq<Tree>,
)
    ensures
        ({
            let then = polling::heard_all(rules, bot_user_id, cursors, channel_id, msgs).1;
            polling::heard_all(rules, bot_user_id, then, channel_id, msgs) == (
                Seq::<Heard>::empty(),
                then,
            )
        }),
{
    let then = polling::heard_all(rules, bot_user_id, cursors, channel_id, msgs).1;
    assert forall|i: int| 0 <= i < msgs.len() implies polling::heard_polled(
        rules,
        bot_user_id,
        then,
        channel_id,
        #[trigger] msgs[i],
    ) is None by {
        lemma_heard_before(rules, bot_user_id, cursors, channel_id, msgs, i);
    }
    lemma_nothing_heard(rules, bot_user_id, then, channel_id, msgs);
}

/// After a page was heard, none of its messages is heard again.
proof fn lemma_heard_before(
    rules: Rules,
    bot_user_id: Seq<char>,
    cursors: Map<Seq<char>, Seq<char>>,
    channel_id: Seq<char>,
    msgs: Seq<Tree>,
    i: int,
)
    requires
        0 <= i < msgs.len(),
    ensures
        polling::heard_polled(
            rules,
            bot_user_id,
            polling::heard_all(rules, bot_user_id, cursors, channel_id, msgs).1,
            channel_id,
            msgs[i],
        ) is None,
    decreases msgs.len(),
{
    let mid = polling::heard_all(rules, bot_user_id, cursors, channel_id, msgs.drop_last()).1;
    let next = polling::heard_polled(rules, bot_user_id, mid, channel_id, msgs.last());
    if i < msgs.len() - 1 {
        lemma_heard_before(rules, bot_user_id, cursors, channel_id, msgs.drop_last(), i);
        assert(msgs.drop_last()[i] == msgs[i]);
        if let Some(m) = next {
            let ts = inbound::text_or(msgs[i], "ts"@, Seq::empty());
            let last = inbound::last_seen(mid, channel_id);
            text::lemma_order_total(last, ts);
            if text::precedes(m.ts, ts) {
                text::lemma_order_transitive(last, m.ts, ts);
            }
        }
    } else if let Some(m) = next {
        text::lemma_order_total(m.ts, m.ts);
    }
}

/// Messages of which none is heard leave the cursors as they are.
proof fn lemma_nothing_heard(
    rules: Rules,
    bot_user_id: Seq<char>,
    cursors: Map<Seq<char>, Seq<char>>,
    channel_id: Seq<char>,
    msgs: Seq<Tree>,
)
    requires
        forall|i: int|
            0 <= i < msgs.len() ==> polling::heard_polled(
                rules,
                bot_user_id,
                cursors,
                channel_id,
                #[trigger] msgs[i],
            ) is None,
    ensures
        polling::heard_all(rules, bot_user_id, cursors, channel_id, msgs) == (
            Seq::<Heard>::empty(),
            cursors,
        ),
    decreases msgs.len(),
{
    if msgs.len() > 0 {
        let front = msgs.drop_last();
        assert forall|i: int| 0 <= i < front.len() implies polling::heard_polled(
            rules,
            bot_user_id,
            cursors,
            channel_id,
            #[trigger] front[i],
        ) is None by {
            assert(front[i] == msgs[i]);
        }
        lemma_nothing_heard(rules, bot_user_id, cursors, channel_id, front);
        assert(msgs.last() == msgs[msgs.len() - 1]);
    }
}

/// Socket Mode delivers messages of the scope only, and none of a channel twice.
pub proof fn law_envelopes_are_delivered_in_scope_and_once(
    rules: Rules,
    bot_user_id: Seq<char>,
    scope: Option<Seq<Seq<char>>>,
    cursors: Map<Seq<char>, Seq<char>>,
    envelope: Tree,
)
    ensures
        ({
            let step = sockets::step_on(rules, bot_user_id, scope, cursors, envelope);
            let then = inbound::cursors_after(cursors, sockets::delivered(step));
            &&& step matches StepOn::Deliver(m) ==> sockets::in_scope(scope, m.channel_id)
            &&& !(sockets::step_on(rules, bot_user_id, scope, then, envelope) is Deliver)
        }),
{
    let step = sockets::step_on(rules, bot_user_id, scope, cursors, envelope);
    if let StepOn::Deliver(m) = step {
        text::lemma_order_total(m.ts, m.ts);
    }
}

/// Two messages of one channel have different identifiers, and so have two
/// messages of different channels with the same timestamp.
pub proof fn law_message_ids_differ(
    channel_id: Seq<char>,
    ts: Seq<char>,
    other_channel: Seq<char>,
    other_ts: Seq<char>,
)
    ensures
        inbound::id_of(channel_id, ts) == inbound::id_of(channel_id, other_ts) ==> ts == other_ts,
        inbound::id_of(channel_id, ts) == inbound::id_of(other_channel, ts) ==> channel_id
            == other_channel,
{
    let head = "slack_"@ + channel_id + "_"@;
    if inbound::id_of(channel_id, ts) == inbound::id_of(channel_id, other_ts) {
        assert(ts == (head + ts).skip(head.len() as int));
        assert(other_ts == (head + other_ts).skip(head.len() as int));
    }
    if inbound::id_of(channel_id, ts) == inbound::id_of(other_channel, ts) {
        let a = inbound::id_of(channel_id, ts);
        let b = inbound::id_of(other_channel, ts);
        let n = "slack_"@.len() as int;
        assert(a.len() == b.len());
        assert(channel_id == a.subrange(n, n + channel_id.len()));
        assert(other_channel == b.subrange(n, n + other_channel.len()));
    }
}

/// Where channels have no underscore in their names, as Slack's have not, the
/// identifier of a message tells its channel and its timestamp.
pub proof fn law_message_id_tells_the_message(
    channel_id: Seq<char>,
    ts: Seq<char>,
    other_channel: Seq<char>,
    other_ts: Seq<char>,
)
    requires
        !channel_id.contains('_'),
        !other_channel.contains('_'),
        inbound::id_of(channel_id, ts) == inbound::id_of(other_channel, other_ts),
    ensures
        channel_id == other_channel,
        ts == other_ts,
{
    reveal_strlit("_");
    let n = "slack_"@.len() as int;
    let a = inbound::id_of(channel_id, ts);
    let b = inbound::id_of(other_channel, other_ts);
    if channel_id.len() < other_channel.len() {
        assert(a[n + channel_id.len()] == '_');
        assert(b[n + channel_id.len()] == other_channel[channel_id.len() as int]);
        assert(other_channel.contains('_'));
    }
    if other_channel.len() < channel_id.len() {
        assert(b[n + other_channel.len()] == '_');
        assert(a[n + other_channel.len()] == channel_id[other_channel.len() as int]);
        assert(channel_id.contains('_'));
    }
    assert(channel_id == a.subrange(n, n + channel_id.len()));
    assert(other_channel == b.subrange(n, n + other_channel.len()));
    law_message_ids_differ(channel_id, ts, other_channel, other_ts);
}

/// The text of an update is a beginning of the whole text and stays within the
/// limit. A text within the limit stays whole; of a longer one, no longer
/// beginning is within the limit.
pub proof fn law_clipped_text_is_the_longest_beginning(s: Seq<char>, limit: int)
    requires
        limit >= 0,
    ensures
        ({
            let c = drafts::clipped(s, limit);
            &&& c.len() <= s.len()
            &&& c == s.take(c.len() as int)
            &&& drafts::bytes_len(c) <= limit
            &&& drafts::bytes_len(s) <= limit ==> c == s
            &&& forall|k: int|
                c.len() < k <= s.len() ==> drafts::bytes_len(#[trigger] s.take(k)) > limit
        }),
    decreases s.len(),
{
    if s.len() > 0 && drafts::bytes_len(s) > limit {
        law_clipped_text_is_the_longest_beginning(s.drop_last(), limit);
        let c = drafts::clipped(s, limit);
        assert(s.drop_last().take(c.len() as int) == s.take(c.len() as int));
        assert forall|k: int| c.len() < k <= s.len() implies drafts::bytes_len(
            #[trigger] s.take(k),
        ) > limit by {
            if k < s.len() {
                assert(s.drop_last().take(k) == s.take(k));
            } else {
                assert(s.take(k) == s);
            }
        }
    } else {
        assert(s.take(s.len() as int) == s);
    }
}

/// After an edit, updates for its recipient wait until the interval has passed.
/// Other recipients do not wait for it, and after a draft was made final or
/// cancelled nothing waits.
pub proof fn law_updates_wait_for_the_interval(
    edits: Map<Seq<char>, int>,
    recipient: Seq<char>,
    other: Seq<char>,
    interval_ms: u64,
    edited_at: int,
    now: int,
)
    requires
        edited_at <= now,
        other != recipient,
    ensures
        ({
            let after = edits.insert(recipient, edited_at);
            &&& drafts::too_soon(after, recipient, interval_ms as int, now) == ((now - edited_at)
                / 1_000_000 < interval_ms)
            &&& drafts::too_soon(after, other, interval_ms as int, now) == drafts::too_soon(
                edits,
                other,
                interval_ms as int,
                now,
            )
            &&& !drafts::too_soon(after.remove(recipient), recipient, interval_ms as int, now)
        }),
{
}

/// What a request to post a message says when it is read: the recipient, the
/// text, and the thread where there is one.
pub proof fn law_posted_message_is_read_back(
    body: Tree,
    recipient: Seq<char>,
    content: Seq<char>,
    thread_ts: Option<Seq<char>>,
)
    requires
        outside::holds_texts(Some(body), drafts::post_fields(recipient, content, thread_ts)),
    ensures
        json::text_member(body, "channel"@) == Some(recipient),
        json::text_member(body, "text"@) == Some(content),
        json::text_member(body, "thread_ts"@) == thread_ts,
{
    reveal_strlit("channel");
    reveal_strlit("text");
    reveal_strlit("thread_ts");
    let all = drafts::post_fields(recipient, content, thread_ts);
    assert("channel"@.len() == 7 && "text"@.len() == 4 && "thread_ts"@.len() == 9);
    assert(all[0] == ("channel"@, recipient));
    assert(all[1] == ("text"@, content));
    if let Some(ts) = thread_ts {
        assert(all[2] == ("thread_ts"@, ts));
    } else if json::member(body, "thread_ts"@) is Some {
        let i = choose|i: int| 0 <= i < all.len() && (#[trigger] all[i]).0 == "thread_ts"@;
        assert(i == 0 || i == 1);
    }
}

/// No request to post, replace or delete a message names a member twice.
pub proof fn law_requests_name_each_member_once(
    recipient: Seq<char>,
    message_id: Seq<char>,
    content: Seq<char>,
    thread_ts: Option<Seq<char>>,
)
    ensures
        outside::distinct_names(drafts::post_fields(recipient, content, thread_ts)),
        outside::distinct_names(drafts::update_fields(recipient, message_id, content)),
        outside::distinct_names(drafts::delete_fields(recipient, message_id)),
{
    reveal_strlit("channel");
    reveal_strlit("text");
    reveal_strlit("thread_ts");
    reveal_strlit("ts");
    assert("channel"@.len() == 7 && "text"@.len() == 4 && "thread_ts"@.len() == 9 && "ts"@.len()
        == 2);
}

/// A message that is addressed to the bot loses its mentions: none is left,
/// where the bot's user has no white space in it.
pub proof fn law_no_mention_is_left(s: Seq<char>, bot_user_id: Seq<char>)
    requires
        bot_user_id.len() > 0,
        forall|i: int|
            0 <= i < bot_user_id.len() ==> !text::white_space(#[trigger] bot_user_id[i]),
    ensures
        !channel::mentions(channel::without_mentions(s, bot_user_id), bot_user_id),
{
    let p = channel::mention(bot_user_id);
    reveal_strlit("<@");
    reveal_strlit(">");
    assert forall|i: int| 0 <= i < p.len() implies #[trigger] p[i] != ' ' by {
        if 2 <= i < 2 + bot_user_id.len() {
            assert(p[i] == bot_user_id[i - 2]);
        }
    }
    let r = text::replace_all(s, p, seq![' ']);
    let t = text::trim(r);
    lemma_trim_start(r);
    lemma_trim_end(text::trim_start(r));
    assert forall|i: int| !#[trigger] text::occurs_at(t, i, p) by {
        if text::occurs_at(t, i, p) {
            let off = r.len() - text::trim_start(r).len();
            assert(r.subrange(off + i, off + i + p.len()) == t.subrange(i, i + p.len()));
            lemma_replaced(s, p, off + i);
        }
    }
}

/// A text in which each occurrence of another was replaced by a space holds
/// none of it, where that text holds no space.
proof fn lemma_replaced(s: Seq<char>, p: Seq<char>, j: int)
    requires
        p.len() > 0,
        forall|i: int| 0 <= i < p.len() ==> #[trigger] p[i] != ' ',
    ensures
        !text::occurs_at(text::replace_all(s, p, seq![' ']), j, p),
    decreases s.len(),
{
    let r = text::replace_all(s, p, seq![' ']);
    text::lemma_find(s, p, 0);
    if text::occurs_at(r, j, p) {
        if let Some(k) = text::find(s, p, 0) {
            let rest = text::replace_all(s.skip(k + p.len()), p, seq![' ']);
            let sub = r.subrange(j, j + p.len());
            assert(r == s.take(k) + seq![' '] + rest);
            if j <= k < j + p.len() {
                assert(sub[k - j] == ' ');
                assert(p[k - j] != ' ');
            } else if j + p.len() <= k {
                assert(s.subrange(j, j + p.len()) == sub);
                assert(text::occurs_at(s, j, p));
            } else {
                assert(rest.subrange(j - k - 1, j - k - 1 + p.len()) == sub);
                lemma_replaced(s.skip(k + p.len()), p, j - k - 1);
            }
        }
    }
}

/// The order of texts of the same length is decided by their last character
/// where all others are the same.
proof fn lemma_order_push(a: Seq<char>, b: Seq<char>, c: char, d: char)
    requires
        a.len() == b.len(),
    ensures
        text::precedes(a.push(c), b.push(d)) == (text::precedes(a, b) || (a == b && c < d)),
    decreases a.len(),
{
    reveal_with_fuel(text::precedes, 2);
    let x = a.push(c);
    let y = b.push(d);
    if a.len() == 0 {
        assert(a == b);
        assert(x.skip(1) == Seq::<char>::empty());
        assert(y.skip(1) == Seq::<char>::empty());
    } else {
        assert(x.skip(1) == a.skip(1).push(c));
        assert(y.skip(1) == b.skip(1).push(d));
        lemma_order_push(a.skip(1), b.skip(1), c, d);
        if a[0] == b[0] && a.skip(1) == b.skip(1) {
            assert(a == seq![a[0]] + a.skip(1));
            assert(b == seq![b[0]] + b.skip(1));
        }
    }
}

/// The order of texts is decided by their ends where their beginnings have the
/// same length.
proof fn lemma_order_parts(a: Seq<char>, b: Seq<char>, x: Seq<char>, y: Seq<char>)
    requires
        a.len() == b.len(),
    ensures
        text::precedes(a + x, b + y) == (text::precedes(a, b) || (a == b && text::precedes(x, y))),
    decreases a.len(),
{
    if a.len() == 0 {
        assert(a == b);
        assert(a + x == x);
        assert(b + y == y);
    } else {
        assert((a + x).skip(1) == a.skip(1) + x);
        assert((b + y).skip(1) == b.skip(1) + y);
        lemma_order_parts(a.skip(1), b.skip(1), x, y);
        if a[0] == b[0] && a.skip(1) == b.skip(1) {
            assert(a == seq![a[0]] + a.skip(1));
            assert(b == seq![b[0]] + b.skip(1));
        }
    }
}

/// The number of digit strings of a length.
pub open spec fn tens(width: nat) -> int
    decreases width,
{
    if width == 0 {
        1
    } else {
        10 * tens((width - 1) as nat)
    }
}

/// Digits of the same number stand in the order of the numbers.
proof fn lemma_digits_order(a: int, b: int, width: nat)
    requires
        0 <= a < tens(width),
        0 <= b < tens(width),
    ensures
        clock::low_digits(a, width).len() == width,
        text::precedes(clock::low_digits(a, width), clock::low_digits(b, width)) == (a < b),
        clock::low_digits(a, width) == clock::low_digits(b, width) ==> a == b,
    decreases width,
{
    if width > 0 {
        let w = (width - 1) as nat;
        lemma_digits_order(a / 10, b / 10, w);
        lemma_digits_order(b / 10, a / 10, w);
        let x = clock::low_digits(a / 10, w);
        let y = clock::low_digits(b / 10, w);
        lemma_order_push(x, y, clock::digit_char(a % 10), clock::digit_char(b % 10));
        let s = clock::low_digits(a, width);
        let t = clock::low_digits(b, width);
        assert(s == x.push(clock::digit_char(a % 10)));
        assert(t == y.push(clock::digit_char(b % 10)));
        if s == t {
            assert(s.drop_last() == x);
            assert(t.drop_last() == y);
            assert(s.last() == t.last());
        }
    }
}

/// The decimal text of a number has as many digits as it needs.
proof fn lemma_decimal_digits(n: int, width: nat)
    requires
        width > 0,
        0 <= n < tens(width),
        width == 1 || tens((width - 1) as nat) <= n,
    ensures
        clock::decimal(n) == clock::low_digits(n, width),
    decreases width,
{
    let w = (width - 1) as nat;
    if width == 1 {
        assert(tens(0) == 1);
        assert(clock::low_digits(n / 10, 0) == Seq::<char>::empty());
        assert(Seq::<char>::empty().push(clock::digit_char(n)) == seq![clock::digit_char(n)]);
    } else {
        assert(tens(0) == 1);
        assert(n >= 10) by {
            lemma_tens_grow(1, w);
        }
        lemma_decimal_digits(n / 10, w);
    }
}

/// Longer digit strings are more.
proof fn lemma_tens_grow(a: nat, b: nat)
    requires
        a <= b,
    ensures
        tens(a) <= tens(b),
        tens(1) == 10,
        1 <= tens(a),
    decreases b,
{
    reveal_with_fuel(tens, 2);
    if a < b {
        lemma_tens_grow(a, (b - 1) as nat);
    } else if a > 0 {
        lemma_tens_grow((a - 1) as nat, (b - 1) as nat);
    }
}

/// Timestamps stand in the order of their times, as long as their seconds have
/// the same number of digits.
pub proof fn law_timestamps_stand_in_order(
    width: nat,
    secs: int,
    nanos: int,
    other_secs: int,
    other_nanos: int,
)
    requires
        width > 0,
        width == 1 || tens((width - 1) as nat) <= secs,
        width == 1 || tens((width - 1) as nat) <= other_secs,
        0 <= secs < tens(width),
        0 <= other_secs < tens(width),
        0 <= nanos < 1_000_000_000,
        0 <= other_nanos < 1_000_000_000,
    ensures
        text::precedes(
            clock::timestamp_text(secs, nanos),
            clock::timestamp_text(other_secs, other_nanos),
        ) == (secs < other_secs || (secs == other_secs && nanos / 1000 < other_nanos / 1000)),
{
    let x = clock::decimal(secs);
    let y = clock::decimal(other_secs);
    let p = clock::low_digits(nanos / 1000, 6);
    let q = clock::low_digits(other_nanos / 1000, 6);
    lemma_decimal_digits(secs, width);
    lemma_decimal_digits(other_secs, width);
    lemma_digits_order(secs, other_secs, width);
    lemma_digits_order(other_secs, secs, width);
    assert(tens(6) == 1_000_000) by {
        reveal_with_fuel(tens, 7);
    }
    lemma_digits_order(nanos / 1000, other_nanos / 1000, 6);
    lemma_digits_order(other_nanos / 1000, nanos / 1000, 6);
    lemma_order_parts(x + seq!['.'], y + seq!['.'], p, q);
    lemma_order_parts(x, y, seq!['.'], seq!['.']);
    text::lemma_order_total(seq!['.'], seq!['.']);
    if x + seq!['.'] == y + seq!['.'] {
        assert((x + seq!['.']).take(x.len() as int) == x);
        assert((y + seq!['.']).take(y.len() as int) == y);
    }
}

/// The decimal text of a number is read as the number.
pub proof fn law_decimal_reads_back(n: int)
    requires
        0 <= n <= u64::MAX,
    ensures
        clock::unsigned_value(clock::decimal(n)) == Some(n),
{
    lemma_decimal_value(n);
    assert(text::digit(clock::decimal(n)[0]));
}

/// The decimal text of a number is made of digits that stand for it.
proof fn lemma_decimal_value(n: int)
    requires
        0 <= n,
    ensures
        clock::decimal(n).len() > 0,
        text::all_digits(clock::decimal(n)),
        clock::digits_value(clock::decimal(n)) == n,
    decreases n,
{
    reveal_with_fuel(clock::digits_value, 2);
    let s = clock::decimal(n);
    let d = clock::digit_char(n % 10);
    assert(text::digit(d) && d as int - '0' as int == n % 10);
    if n < 10 {
        assert(s.drop_last() == Seq::<char>::empty());
        assert(s.last() == d);
    } else {
        lemma_decimal_value(n / 10);
        let front = clock::decimal(n / 10);
        assert(s == front.push(d));
        assert(s.drop_last() == front);
        assert forall|i: int| 0 <= i < s.len() implies text::digit(#[trigger] s[i]) by {
            if i < front.len() {
                assert(text::digit(front[i]));
            }
        }
    }
}

} // verus!
