//! What is kept from one message to the next, and what is dropped.

use vstd::prelude::*;
use crate::channel;
use crate::drafts;
use crate::inbound;
use crate::inbound::{Heard, Rules};
use crate::json;
use crate::json::Tree;
use crate::outside;
use crate::polling;
use crate::polling::Poller;
use crate::promises::hearing;
use crate::promises::words;
use crate::rounds;
use crate::rounds::{Moment, NextPoll, PollEventOn, PollHeed, Round, WaitOn};
use crate::text;

verus! {

/// What is heard moves the cursor of its channel to its timestamp, and no other
/// cursor.
pub proof fn law_cursors_follow_what_is_heard(
    cursors: Map<Seq<char>, Seq<char>>,
    m: Heard,
    other: Seq<char>,
)
    ensures
        ({
            let then = inbound::cursors_after(cursors, Some(m));
            &&& then.contains_key(m.channel_id) && then[m.channel_id] == m.ts
            &&& other != m.channel_id ==> then.contains_key(other) == cursors.contains_key(other)
            &&& other != m.channel_id && cursors.contains_key(other) ==> then[other]
                == cursors[other]
        }),
        inbound::cursors_after(cursors, None) == cursors,
{
}

/// A channel that is polled has a cursor from then on: its own, or else the
/// present. No other cursor changes.
pub proof fn law_polled_channels_have_a_cursor(
    cursors: Map<Seq<char>, Seq<char>>,
    channel_id: Seq<char>,
    now_ts: Seq<char>,
    other: Seq<char>,
)
    ensures
        ({
            let then = channel::cursors_with(cursors, channel_id, now_ts);
            &&& then.contains_key(channel_id)
            &&& cursors.contains_key(channel_id) ==> then[channel_id] == cursors[channel_id]
            &&& !cursors.contains_key(channel_id) ==> then[channel_id] == now_ts
            &&& other != channel_id ==> then.contains_key(other) == cursors.contains_key(other)
            &&& other != channel_id && cursors.contains_key(other) ==> then[other]
                == cursors[other]
        }),
{
}

/// A cached name that is asked for too late is forgotten. Any other entry stays.
pub proof fn law_old_names_are_forgotten(
    cache: Map<Seq<char>, (Seq<char>, int)>,
    user: Seq<char>,
    other: Seq<char>,
    now: int,
)
    ensures
        ({
            let then = channel::cache_after_read(cache, user, now);
            &&& then.contains_key(user) == (cache.contains_key(user) && now <= cache[user].1)
            &&& then.contains_key(user) ==> then[user] == cache[user]
            &&& other != user ==> then.contains_key(other) == cache.contains_key(other)
            &&& other != user && cache.contains_key(other) ==> then[other] == cache[other]
        }),
{
}

/// A message belongs to the thread that it names; one that names none starts its
/// own, by its timestamp, if it has one.
pub proof fn law_threads(msg: Tree, ts: Seq<char>, named: Seq<char>)
    ensures
        hearing::member_is(msg, "thread_ts"@, named) ==> inbound::thread_of(msg, ts) == Some(named),
        !(json::member(msg, "thread_ts"@) matches Some(Tree::Text(_))) && ts.len() > 0
            ==> inbound::thread_of(msg, ts) == Some(ts),
        !(json::member(msg, "thread_ts"@) matches Some(Tree::Text(_))) && ts.len() == 0
            ==> inbound::thread_of(msg, ts) is None,
{
}

/// The message is a plain one of a user who is not allowed.
pub open spec fn unwelcome(
    rules: Rules,
    bot_user_id: Seq<char>,
    msg: Tree,
    user: Seq<char>,
) -> bool {
    &&& hearing::writer(msg) == user
    &&& json::member(msg, "subtype"@) is None
    &&& user != bot_user_id
    &&& !hearing::names(rules.allowed, user)
}

/// Of a list of messages those users are refused who wrote a plain message and are
/// not allowed, and no others.
pub proof fn law_refused_users_of_messages(
    rules: Rules,
    bot_user_id: Seq<char>,
    msgs: Seq<Tree>,
    user: Seq<char>,
)
    ensures
        polling::refused_senders(rules, bot_user_id, msgs).contains(user) == exists|i: int|
            0 <= i < msgs.len() && unwelcome(rules, bot_user_id, #[trigger] msgs[i], user),
        polling::refused_senders(rules, bot_user_id, msgs).len() <= msgs.len(),
    decreases msgs.len(),
{
    let all = polling::refused_senders(rules, bot_user_id, msgs);
    if msgs.len() > 0 {
        let fewer = msgs.drop_last();
        let front = polling::refused_senders(rules, bot_user_id, fewer);
        let n = msgs.len() - 1;
        let last = msgs[n];
        law_refused_users_of_messages(rules, bot_user_id, fewer, user);
        hearing::lemma_names(rules.allowed, hearing::writer(last));
        assert(inbound::text_or(last, "user"@, "unknown"@) == hearing::writer(last));
        if front.contains(user) {
            let i = choose|i: int|
                0 <= i < fewer.len() && unwelcome(rules, bot_user_id, #[trigger] fewer[i], user);
            assert(msgs[i] == fewer[i]);
            let j = choose|j: int| 0 <= j < front.len() && front[j] == user;
            assert(all[j] == user);
        }
        if unwelcome(rules, bot_user_id, last, user) {
            assert(all[all.len() - 1] == user);
        }
        if all.contains(user) && !front.contains(user) {
            let j = choose|j: int| 0 <= j < all.len() && all[j] == user;
            if j < front.len() {
                assert(front[j] == user);
            }
            assert(unwelcome(rules, bot_user_id, msgs[n], user));
        }
        if exists|i: int|
            0 <= i < msgs.len() && unwelcome(rules, bot_user_id, #[trigger] msgs[i], user) {
            let i = choose|i: int|
                0 <= i < msgs.len() && unwelcome(rules, bot_user_id, #[trigger] msgs[i], user);
            if i < n {
                assert(fewer[i] == msgs[i]);
            }
        }
    }
}

/// The refused users of messages are those of the first ones and then those of the
/// others, so that each message counts.
pub proof fn law_refused_users_add_up(
    rules: Rules,
    bot_user_id: Seq<char>,
    a: Seq<Tree>,
    b: Seq<Tree>,
)
    ensures
        polling::refused_senders(rules, bot_user_id, a + b) == polling::refused_senders(
            rules,
            bot_user_id,
            a,
        ) + polling::refused_senders(rules, bot_user_id, b),
    decreases b.len(),
{
    let first = polling::refused_senders(rules, bot_user_id, a);
    if b.len() == 0 {
        assert(a + b == a);
        assert(first + Seq::<Seq<char>>::empty() == first);
    } else {
        law_refused_users_add_up(rules, bot_user_id, a, b.drop_last());
        assert((a + b).drop_last() == a + b.drop_last());
        assert((a + b).last() == b.last());
        let then = polling::refused_senders(rules, bot_user_id, b.drop_last());
        let user = inbound::text_or(b.last(), "user"@, "unknown"@);
        assert((first + then).push(user) == first + then.push(user));
    }
}

/// In a sorted list each text stands before every later one, so that none occurs
/// twice.
pub proof fn law_sorted_lists(s: Seq<Seq<char>>, i: int, j: int)
    requires
        0 <= i < j < s.len(),
    ensures
        text::strictly_sorted(s) ==> words::earlier(s[i], s[j]),
        text::strictly_sorted(s) ==> s[i] != s[j],
        (forall|a: int, b: int|
            0 <= a < b < s.len() ==> words::earlier(#[trigger] s[a], #[trigger] s[b]))
            ==> text::strictly_sorted(s),
{
    words::law_texts_are_ordered(s[i], s[j]);
    if text::strictly_sorted(s) && s[i] == s[j] {
        let k = choose|k: int| words::earlier_at(s[i], s[j], k);
        assert(s[i][k] == s[j][k]);
    }
    if forall|a: int, b: int|
        0 <= a < b < s.len() ==> words::earlier(#[trigger] s[a], #[trigger] s[b]) {
        assert forall|a: int, b: int| 0 <= a < b < s.len() implies text::precedes(
            #[trigger] s[a],
            #[trigger] s[b],
        ) by {
            assert(words::earlier(s[a], s[b]));
            words::law_texts_are_ordered(s[a], s[b]);
        }
    }
}

/// Polling stops when a message is not taken, and then for good.
pub proof fn law_polling_stops(heed: PollHeed, at: Round, event: PollEventOn, t: Moment)
    ensures
        at.phase is Delivering && event == PollEventOn::Taken(false) ==> rounds::after_poll(
            heed,
            at,
            event,
            t,
        ).1 is Stop && rounds::after_poll(heed, at, event, t).0.phase is Stopped,
        at.phase is Stopped ==> rounds::after_poll(heed, at, event, t).1 is Stop
            && rounds::after_poll(heed, at, event, t).0.phase is Stopped,
        rounds::after_poll(heed, at, event, t).1 is Stop ==> at.phase is Stopped || (at.phase
            is Delivering && event == PollEventOn::Taken(false)),
{
}

/// A request for history is marked as the first one of its channel if the channel
/// had no cursor, and it asks for what comes after the cursor.
pub proof fn law_first_requests_are_marked(
    heed: PollHeed,
    at: Round,
    event: PollEventOn,
    t: Moment,
)
    ensures
        ({
            let (then, action) = rounds::after_poll(heed, at, event, t);
            action matches NextPoll::Fetch { channel_id, query, first } ==> {
                &&& then.phase == WaitOn::Fetching(channel_id)
                &&& then.cursors.contains_key(channel_id)
                &&& query == seq![
                    ("channel"@, channel_id),
                    ("limit"@, "10"@),
                    ("oldest"@, then.cursors[channel_id]),
                ]
                &&& first ==> then.cursors[channel_id] == t.now_ts
                &&& at.cursors.contains_key(channel_id) ==> !first
                &&& !first ==> at.cursors.contains_key(channel_id) || event is Fetched
            }
        }),
{
    if let (WaitOn::Fetching(channel_id), PollEventOn::Fetched(Some(payload))) = (at.phase, event) {
        let msgs = polling::page_messages(payload);
        lemma_cursors_stay(heed.rules, heed.bot_user_id, at.cursors, channel_id, msgs);
    }
}

/// Hearing messages takes no cursor away.
proof fn lemma_cursors_stay(
    rules: Rules,
    bot_user_id: Seq<char>,
    cursors: Map<Seq<char>, Seq<char>>,
    channel_id: Seq<char>,
    msgs: Seq<Tree>,
)
    ensures
        forall|c: Seq<char>| #[trigger]
            cursors.contains_key(c) ==> polling::heard_all(
                rules,
                bot_user_id,
                cursors,
                channel_id,
                msgs,
            ).1.contains_key(c),
    decreases msgs.len(),
{
    if msgs.len() > 0 {
        lemma_cursors_stay(rules, bot_user_id, cursors, channel_id, msgs.drop_last());
    }
}

/// The channels are listed by a poller when none are configured, and none are known
/// or the last time is a minute or more ago.
pub proof fn law_channels_are_listed_when_due(p: Poller, now: int)
    ensures
        p.scope is Some ==> !p.discovery_due(now),
        p.scope is None && p.discovered@.len() == 0 ==> p.discovery_due(now),
        p.scope is None && p.discovered@.len() > 0 ==> p.discovery_due(now) == (now
            - p.last_discovery@ >= 60 * 1_000_000_000),
        p.scope matches Some(ids) ==> p.channels() == text::strings(ids@),
        p.scope is None ==> p.channels() == text::strings(p.discovered@),
{
}

/// A body holds the JSON document that it is, and no members where it is none.
pub proof fn law_bodies_are_documents(s: Seq<char>, value: Tree, key: Seq<char>)
    ensures
        outside::json_document(s) == Some(value) ==> json::body_value(s) == value,
        outside::json_document(s) is None ==> json::member(json::body_value(s), key) is None,
{
}

/// Without a user to look for, stripping mentions takes white space at the ends
/// away, and no more; no text mentions a user without a name.
pub proof fn law_nobody_is_mentioned(a: Seq<char>, t: Seq<char>, b: Seq<char>)
    requires
        words::blank(a),
        words::bare(t),
        words::blank(b),
    ensures
        channel::without_mentions(words::padded(a, t, b), Seq::empty()) == t,
        !channel::mentions(words::padded(a, t, b), Seq::empty()),
{
    words::law_trim_gives_what_is_padded(a, t, b);
}

/// A clock that went back gives no time to wait for: an edit then waits if there is
/// any interval.
pub proof fn law_edits_wait_when_the_clock_goes_back(
    edits: Map<Seq<char>, int>,
    recipient: Seq<char>,
    interval_ms: u64,
    now: int,
)
    requires
        edits.contains_key(recipient),
        now < edits[recipient],
    ensures
        drafts::too_soon(edits, recipient, interval_ms as int, now) == (interval_ms > 0),
{
}

} // verus!
