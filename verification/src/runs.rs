//! What holds of everything that is heard while the channel listens.

use vstd::prelude::*;
use crate::channel;
use crate::inbound;
use crate::inbound::{Heard, Rules};
use crate::json;
use crate::json::Tree;
use crate::outside;
use crate::polling;
use crate::rounds;
use crate::rounds::{Moment, NextPoll, PollEventOn, PollHeed, Round, WaitOn};
use crate::sessions;
use crate::sessions::{Heed, NextAction, PhaseOn, SocketEvent, Standing};
use crate::sockets;
use crate::sockets::{ActionOn, SocketFrame};
use crate::text;

verus! {

/// What was heard between two states of the cursors: in each channel the
/// timestamps rise, from above the first cursor up to the last one, and no
/// cursor moves back.
pub open spec fn orderly(
    first: Map<Seq<char>, Seq<char>>,
    ms: Seq<Heard>,
    then: Map<Seq<char>, Seq<char>>,
) -> bool {
    &&& forall|i: int, j: int|
        0 <= i < j < ms.len() && (#[trigger] ms[i]).channel_id == (#[trigger] ms[j]).channel_id
            ==> text::precedes(ms[i].ts, ms[j].ts)
    &&& forall|i: int|
        0 <= i < ms.len() ==> {
            let m = #[trigger] ms[i];
            &&& text::precedes(inbound::last_seen(first, m.channel_id), m.ts)
            &&& then.contains_key(m.channel_id)
            &&& !text::precedes(then[m.channel_id], m.ts)
        }
    &&& forall|c: Seq<char>|
        !text::precedes(#[trigger] inbound::last_seen(then, c), inbound::last_seen(first, c))
}

/// Nothing was heard yet.
proof fn lemma_orderly_start(first: Map<Seq<char>, Seq<char>>)
    ensures
        orderly(first, Seq::empty(), first),
{
    assert forall|c: Seq<char>|
        !text::precedes(#[trigger] inbound::last_seen(first, c), inbound::last_seen(first, c)) by {
        text::lemma_order_total(inbound::last_seen(first, c), inbound::last_seen(first, c));
    }
}

/// A message that is newer than the cursor of its channel is heard in order.
proof fn lemma_orderly_push(
    first: Map<Seq<char>, Seq<char>>,
    ms: Seq<Heard>,
    then: Map<Seq<char>, Seq<char>>,
    m: Heard,
)
    requires
        orderly(first, ms, then),
        text::precedes(inbound::last_seen(then, m.channel_id), m.ts),
    ensures
        orderly(first, ms.push(m), then.insert(m.channel_id, m.ts)),
{
    let all = ms.push(m);
    let after = then.insert(m.channel_id, m.ts);
    let start = inbound::last_seen(first, m.channel_id);
    let last = inbound::last_seen(then, m.channel_id);
    assert(!text::precedes(last, start));
    text::lemma_order_total(start, last);
    text::lemma_order_total(m.ts, m.ts);
    text::lemma_order_total(start, m.ts);
    if start != last {
        text::lemma_order_transitive(start, last, m.ts);
    }
    assert(text::precedes(start, m.ts));
    assert forall|i: int| 0 <= i < ms.len() && (#[trigger] ms[i]).channel_id == m.channel_id implies
        text::precedes(ms[i].ts, m.ts) by {
        text::lemma_order_total(ms[i].ts, last);
        if ms[i].ts != last {
            text::lemma_order_transitive(ms[i].ts, last, m.ts);
        }
    }
    assert forall|i: int, j: int|
        0 <= i < j < all.len() && (#[trigger] all[i]).channel_id == (#[trigger] all[j]).channel_id
        implies text::precedes(all[i].ts, all[j].ts) by {
        assert(all[i] == ms[i]);
        if j < ms.len() {
            assert(all[j] == ms[j]);
        }
    }
    assert forall|i: int| 0 <= i < all.len() implies {
        let x = #[trigger] all[i];
        &&& text::precedes(inbound::last_seen(first, x.channel_id), x.ts)
        &&& after.contains_key(x.channel_id)
        &&& !text::precedes(after[x.channel_id], x.ts)
    } by {
        if i < ms.len() {
            assert(all[i] == ms[i]);
            if ms[i].channel_id == m.channel_id {
                text::lemma_order_total(ms[i].ts, m.ts);
            }
        }
    }
    assert forall|c: Seq<char>|
        !text::precedes(#[trigger] inbound::last_seen(after, c), inbound::last_seen(first, c)) by {
        assert(!text::precedes(inbound::last_seen(then, c), inbound::last_seen(first, c)));
    }
}

/// What a session hands on after the given events, and where it stands then.
pub open spec fn session(heed: Heed, first: Standing, events: Seq<SocketEvent>) -> (
    Seq<Heard>,
    Standing,
)
    decreases events.len(),
{
    if events.len() == 0 {
        (Seq::empty(), first)
    } else {
        let (front, at) = session(heed, first, events.drop_last());
        let (then, action) = sessions::after_event(heed, at, events.last());
        match action {
            NextAction::Deliver(m) => (front.push(m), then),
            _ => (front, then),
        }
    }
}

/// The event is the arrival of the envelope.
pub open spec fn brings(event: SocketEvent, envelope: Tree) -> bool {
    event matches SocketEvent::Arrived(SocketFrame::Text(t)) && outside::json_document(t@) == Some(
        envelope,
    )
}

/// The envelope arrived in one of the events.
pub open spec fn arrived(events: Seq<SocketEvent>, envelope: Tree) -> bool {
    exists|k: int| 0 <= k < events.len() && #[trigger] brings(events[k], envelope)
}

/// The message is what the envelope says, and the channel may hear it: an event
/// of the Events API that is a plain message, of a channel of the scope, by an
/// allowed user who is not the bot.
pub open spec fn stems_from_envelope(
    m: Heard,
    rules: Rules,
    bot_user_id: Seq<char>,
    scope: Option<Seq<Seq<char>>>,
    envelope: Tree,
) -> bool {
    &&& json::text_member(envelope, "type"@) == Some("events_api"@)
    &&& sockets::event_of(envelope) matches Some(event) && {
        &&& json::text_member(event, "type"@) == Some("message"@)
        &&& json::member(event, "subtype"@) is None
        &&& json::text_member(event, "channel"@) == Some(m.channel_id)
        &&& json::text_member(event, "user"@) == Some(m.user)
        &&& json::text_member(event, "ts"@) == Some(m.ts)
        &&& m.thread_ts == inbound::thread_of(event, m.ts)
    }
    &&& m.channel_id.len() > 0
    &&& sockets::in_scope(scope, m.channel_id)
    &&& m.user.len() > 0
    &&& m.user != bot_user_id
    &&& channel::lists(rules.allowed, m.user)
    &&& m.content.len() > 0
}

/// The message stems from an envelope that arrived.
pub open spec fn stems_from_event(m: Heard, heed: Heed, events: Seq<SocketEvent>) -> bool {
    exists|envelope: Tree| #[trigger]
        arrived(events, envelope) && stems_from_envelope(
            m,
            heed.rules,
            heed.bot_user_id,
            heed.scope,
            envelope,
        )
}

/// What arrived in the earlier events arrived.
proof fn lemma_arrived_before(events: Seq<SocketEvent>, envelope: Tree)
    requires
        events.len() > 0,
        arrived(events.drop_last(), envelope),
    ensures
        arrived(events, envelope),
{
    let es = events.drop_last();
    let k = choose|k: int| 0 <= k < es.len() && #[trigger] brings(es[k], envelope);
    assert(brings(events[k], envelope));
}

/// What holds of a session after the given events.
pub open spec fn session_sound(heed: Heed, first: Standing, events: Seq<SocketEvent>) -> bool {
    let (ms, then) = session(heed, first, events);
    &&& orderly(first.cursors, ms, then.cursors)
    &&& forall|i: int|
        0 <= i < ms.len() ==> stems_from_event(#[trigger] ms[i], heed, events)
    &&& then.phase matches PhaseOn::Acking(envelope) ==> arrived(events, envelope)
}

/// Over any run of events, with failures and over any number of connections, the
/// timestamps that are handed on of one channel rise, so that no message is
/// handed on twice, and each message stems from an envelope that arrived and
/// that the channel may hear.
pub proof fn law_socket_mode_hears_in_order(
    heed: Heed,
    first: Standing,
    events: Seq<SocketEvent>,
)
    requires
        first.phase is Opening,
    ensures
        session_sound(heed, first, events),
    decreases events.len(),
{
    if events.len() == 0 {
        lemma_orderly_start(first.cursors);
    } else {
        let es = events.drop_last();
        let event = events.last();
        law_socket_mode_hears_in_order(heed, first, es);
        let (front, at) = session(heed, first, es);
        let (ms, then) = session(heed, first, events);
        let action = sessions::after_event(heed, at, event).1;
        let envelope = handled(at, event);
        if let Some(e) = envelope {
            if at.phase is Acking {
                lemma_arrived_before(events, e);
            } else {
                assert(brings(events[events.len() - 1], e));
            }
        }
        if let NextAction::Deliver(m) = action {
            let e = envelope->0;
            lemma_delivered_stems(heed.rules, heed.bot_user_id, heed.scope, at.cursors, e, m);
            lemma_orderly_push(first.cursors, front, at.cursors, m);
        }
        assert forall|i: int| 0 <= i < ms.len() implies stems_from_event(
            #[trigger] ms[i],
            heed,
            events,
        ) by {
            if i < front.len() {
                assert(ms[i] == front[i]);
                assert(stems_from_event(front[i], heed, es));
                let e = choose|e: Tree| #[trigger]
                    arrived(es, e) && stems_from_envelope(
                        front[i],
                        heed.rules,
                        heed.bot_user_id,
                        heed.scope,
                        e,
                    );
                lemma_arrived_before(events, e);
            } else {
                assert(arrived(events, envelope->0));
            }
        }
    }
}

/// The envelope that an event is about: one that arrives, or one whose
/// acknowledgement was sent.
pub open spec fn handled(at: Standing, event: SocketEvent) -> Option<Tree> {
    match (at.phase, event) {
        (PhaseOn::Acking(envelope), SocketEvent::Sent(true)) => Some(envelope),
        (PhaseOn::Reading, SocketEvent::Arrived(frame)) => match sockets::action_on(frame) {
            ActionOn::Read(envelope) => Some(envelope),
            _ => None,
        },
        _ => None,
    }
}

/// An envelope with an identifier is acknowledged before anything else is done
/// about it: what arrives is answered by its acknowledgement, and only once that
/// was sent may a message be handed on or the connection be left for it.
pub proof fn law_envelopes_are_acknowledged_first(
    heed: Heed,
    at: Standing,
    frame: SocketFrame,
    envelope: Tree,
    id: Seq<char>,
)
    requires
        at.phase is Reading,
        sockets::action_on(frame) == ActionOn::Read(envelope),
        json::text_member(envelope, "envelope_id"@) == Some(id),
    ensures
        ({
            let arrival = SocketEvent::Arrived(frame);
            let (then, action) = sessions::after_event(heed, at, arrival);
            &&& action == NextAction::Ack(outside::json_object_text(sockets::ack_members(id)))
            &&& then.cursors == at.cursors
            &&& sessions::after_event(heed, then, SocketEvent::Sent(true)) == sessions::handle(
                heed,
                at.cursors,
                envelope,
            )
            &&& sessions::after_event(heed, then, SocketEvent::Sent(false)) == sessions::leave(
                at.cursors,
                sessions::NoticeOn::Nothing,
            )
        }),
{
}

/// Finds the event that stopped a session.
proof fn lemma_socket_stop(heed: Heed, first: Standing, events: Seq<SocketEvent>) -> (k: int)
    requires
        first.phase is Opening,
        session(heed, first, events).1.phase is Stopped,
    ensures
        0 <= k < events.len(),
        events[k] == SocketEvent::Taken(false),
        session(heed, first, events.take(k)).1.phase is Delivering,
    decreases events.len(),
{
    let n = events.len() - 1;
    let es = events.drop_last();
    assert(es == events.take(n));
    let at = session(heed, first, es).1;
    if at.phase is Stopped {
        let k = lemma_socket_stop(heed, first, es);
        assert(es.take(k) == events.take(k));
        k
    } else {
        assert(sessions::after_event(heed, at, events.last()).0.phase is Stopped);
        n
    }
}

/// Socket Mode stops only when a message was handed on and nobody listens any
/// more; every failure leads to another connection.
pub proof fn law_socket_mode_stops_only_unheard(
    heed: Heed,
    first: Standing,
    events: Seq<SocketEvent>,
)
    requires
        first.phase is Opening,
        session(heed, first, events).1.phase is Stopped,
    ensures
        exists|k: int|
            0 <= k < events.len() && #[trigger] events[k] == SocketEvent::Taken(false) && session(
                heed,
                first,
                events.take(k),
            ).1.phase is Delivering,
{
    let k = lemma_socket_stop(heed, first, events);
    assert(events[k] == SocketEvent::Taken(false));
}

/// A message that is delivered stems from its envelope and is newer than the
/// cursor.
proof fn lemma_delivered_stems(
    rules: Rules,
    bot_user_id: Seq<char>,
    scope: Option<Seq<Seq<char>>>,
    cursors: Map<Seq<char>, Seq<char>>,
    envelope: Tree,
    m: Heard,
)
    requires
        sockets::delivered(sockets::step_on(rules, bot_user_id, scope, cursors, envelope)) == Some(
            m,
        ),
    ensures
        stems_from_envelope(m, rules, bot_user_id, scope, envelope),
        text::precedes(inbound::last_seen(cursors, m.channel_id), m.ts),
{
    let event = sockets::event_of(envelope)->0;
    let channel_id = inbound::text_or(event, "channel"@, Seq::empty());
    let user = inbound::text_or(event, "user"@, Seq::empty());
    crate::laws::law_heard_messages_obey_the_rules(
        rules,
        bot_user_id,
        cursors,
        channel_id,
        user,
        event,
    );
}

/// What happens while channels are polled.
pub enum PollStep {
    /// A channel is about to be asked for its history, at the given time.
    Start { channel_id: Seq<char>, now_ts: Seq<char> },
    /// A page of the history of a channel came, oldest message first.
    Page { channel_id: Seq<char>, msgs: Seq<Tree> },
}

/// What is heard in the first `k` steps of polling, and the cursors after them.
pub open spec fn polled(
    rules: Rules,
    bot_user_id: Seq<char>,
    cursors: Map<Seq<char>, Seq<char>>,
    steps: Seq<PollStep>,
    k: nat,
) -> (Seq<Heard>, Map<Seq<char>, Seq<char>>)
    decreases k,
{
    if k == 0 {
        (Seq::empty(), cursors)
    } else {
        let (front, then) = polled(rules, bot_user_id, cursors, steps, (k - 1) as nat);
        match steps[k - 1] {
            PollStep::Start { channel_id, now_ts } => (
                front,
                channel::cursors_with(then, channel_id, now_ts),
            ),
            PollStep::Page { channel_id, msgs } => {
                let (more, after) = polling::heard_all(rules, bot_user_id, then, channel_id, msgs);
                (front + more, after)
            },
        }
    }
}

/// The message is what a message of a page says, and the channel may hear it: a
/// plain message by an allowed user who is not the bot.
pub open spec fn stems_from_message(
    m: Heard,
    rules: Rules,
    bot_user_id: Seq<char>,
    channel_id: Seq<char>,
    msg: Tree,
) -> bool {
    &&& json::member(msg, "subtype"@) is None
    &&& m.channel_id == channel_id
    &&& m.user == inbound::text_or(msg, "user"@, "unknown"@)
    &&& json::text_member(msg, "ts"@) == Some(m.ts)
    &&& m.thread_ts == inbound::thread_of(msg, m.ts)
    &&& m.user != bot_user_id
    &&& channel::lists(rules.allowed, m.user)
    &&& m.content.len() > 0
}

/// The message stems from a page of the steps.
pub open spec fn stems_from_page(
    m: Heard,
    rules: Rules,
    bot_user_id: Seq<char>,
    step: PollStep,
) -> bool {
    match step {
        PollStep::Page { channel_id, msgs } => exists|j: int|
            0 <= j < msgs.len() && #[trigger] stems_from_message(
                m,
                rules,
                bot_user_id,
                channel_id,
                msgs[j],
            ),
        _ => false,
    }
}

/// A message of a page shows from where what is heard stems.
proof fn lemma_stems(
    m: Heard,
    rules: Rules,
    bot_user_id: Seq<char>,
    channel_id: Seq<char>,
    msgs: Seq<Tree>,
    j: int,
)
    requires
        0 <= j < msgs.len(),
        stems_from_message(m, rules, bot_user_id, channel_id, msgs[j]),
    ensures
        stems_from_page(m, rules, bot_user_id, (PollStep::Page { channel_id, msgs })),
{
    let step = PollStep::Page { channel_id, msgs };
    assert(stems_from_message(m, rules, bot_user_id, step->Page_channel_id, step->Page_msgs[j]));
}

/// A page is heard in order after what was heard before.
proof fn lemma_orderly_page(
    first: Map<Seq<char>, Seq<char>>,
    ms: Seq<Heard>,
    then: Map<Seq<char>, Seq<char>>,
    rules: Rules,
    bot_user_id: Seq<char>,
    channel_id: Seq<char>,
    msgs: Seq<Tree>,
)
    requires
        orderly(first, ms, then),
    ensures
        ({
            let (more, after) = polling::heard_all(rules, bot_user_id, then, channel_id, msgs);
            &&& orderly(first, ms + more, after)
            &&& forall|i: int|
                0 <= i < more.len() ==> stems_from_page(
                    #[trigger] more[i],
                    rules,
                    bot_user_id,
                    (PollStep::Page { channel_id, msgs }),
                )
        }),
    decreases msgs.len(),
{
    if msgs.len() == 0 {
        assert(ms + Seq::<Heard>::empty() == ms);
    } else {
        let fewer = msgs.drop_last();
        lemma_orderly_page(first, ms, then, rules, bot_user_id, channel_id, fewer);
        let (front, mid) = polling::heard_all(rules, bot_user_id, then, channel_id, fewer);
        let (more, after) = polling::heard_all(rules, bot_user_id, then, channel_id, msgs);
        let msg = msgs.last();
        let user = inbound::text_or(msg, "user"@, "unknown"@);
        crate::laws::law_heard_messages_obey_the_rules(
            rules,
            bot_user_id,
            mid,
            channel_id,
            user,
            msg,
        );
        if let Some(m) = polling::heard_polled(rules, bot_user_id, mid, channel_id, msg) {
            lemma_orderly_push(first, ms + front, mid, m);
            assert(ms + more == (ms + front).push(m));
        }
        assert forall|i: int| 0 <= i < more.len() implies stems_from_page(
            #[trigger] more[i],
            rules,
            bot_user_id,
            (PollStep::Page { channel_id, msgs }),
        ) by {
            if i < front.len() {
                assert(more[i] == front[i]);
                assert(stems_from_page(
                    front[i],
                    rules,
                    bot_user_id,
                    (PollStep::Page { channel_id, msgs: fewer }),
                ));
                let j = choose|j: int|
                    0 <= j < fewer.len() && #[trigger] stems_from_message(
                        front[i],
                        rules,
                        bot_user_id,
                        channel_id,
                        fewer[j],
                    );
                assert(msgs[j] == fewer[j]);
                lemma_stems(more[i], rules, bot_user_id, channel_id, msgs, j);
            } else {
                lemma_stems(more[i], rules, bot_user_id, channel_id, msgs, msgs.len() - 1);
            }
        }
    }
}

/// Setting the cursor of a channel that has none keeps the order.
proof fn lemma_orderly_cursor(
    first: Map<Seq<char>, Seq<char>>,
    ms: Seq<Heard>,
    then: Map<Seq<char>, Seq<char>>,
    channel_id: Seq<char>,
    now_ts: Seq<char>,
)
    requires
        orderly(first, ms, then),
    ensures
        orderly(first, ms, channel::cursors_with(then, channel_id, now_ts)),
{
    let after = channel::cursors_with(then, channel_id, now_ts);
    assert forall|c: Seq<char>|
        !text::precedes(#[trigger] inbound::last_seen(after, c), inbound::last_seen(first, c)) by {
        let low = inbound::last_seen(first, c);
        assert(!text::precedes(inbound::last_seen(then, c), low));
        if c == channel_id && !then.contains_key(c) {
            // The channel had no cursor, so its first one was empty.
            text::lemma_order_total(low, Seq::empty());
            text::lemma_order_total(now_ts, low);
        }
    }
    assert forall|i: int| 0 <= i < ms.len() implies {
        let m = #[trigger] ms[i];
        &&& text::precedes(inbound::last_seen(first, m.channel_id), m.ts)
        &&& after.contains_key(m.channel_id)
        &&& !text::precedes(after[m.channel_id], m.ts)
    } by {
        assert(then.contains_key(ms[i].channel_id));
    }
}

/// What is heard from one step of polling on stays in order.
proof fn lemma_orderly_run(
    rules: Rules,
    bot_user_id: Seq<char>,
    cursors: Map<Seq<char>, Seq<char>>,
    steps: Seq<PollStep>,
    first: Map<Seq<char>, Seq<char>>,
    j: nat,
    k: nat,
)
    requires
        j <= k <= steps.len(),
        ({
            let (ms, then) = polled(rules, bot_user_id, cursors, steps, j);
            orderly(first, ms, then)
        }),
    ensures
        ({
            let (ms, then) = polled(rules, bot_user_id, cursors, steps, k);
            orderly(first, ms, then)
        }),
    decreases k,
{
    if j < k {
        let b = (k - 1) as nat;
        lemma_orderly_run(rules, bot_user_id, cursors, steps, first, j, b);
        let (ms, then) = polled(rules, bot_user_id, cursors, steps, b);
        match steps[k - 1] {
            PollStep::Start { channel_id, now_ts } => {
                lemma_orderly_cursor(first, ms, then, channel_id, now_ts);
            },
            PollStep::Page { channel_id, msgs } => {
                lemma_orderly_page(first, ms, then, rules, bot_user_id, channel_id, msgs);
            },
        }
    }
}

/// Over any run of pages of any channels, the timestamps that are heard in one
/// channel rise, so that no message is heard twice, and each message stems from
/// a message of a page that the channel may hear.
pub proof fn law_polling_hears_in_order(
    rules: Rules,
    bot_user_id: Seq<char>,
    cursors: Map<Seq<char>, Seq<char>>,
    steps: Seq<PollStep>,
    k: nat,
)
    requires
        k <= steps.len(),
    ensures
        ({
            let (ms, then) = polled(rules, bot_user_id, cursors, steps, k);
            &&& orderly(cursors, ms, then)
            &&& forall|i: int|
                0 <= i < ms.len() ==> exists|j: int|
                    0 <= j < k && stems_from_page(
                        #[trigger] ms[i],
                        rules,
                        bot_user_id,
                        #[trigger] steps[j],
                    )
        }),
    decreases k,
{
    lemma_orderly_start(cursors);
    lemma_orderly_run(rules, bot_user_id, cursors, steps, cursors, 0, k);
    if k > 0 {
        let b = (k - 1) as nat;
        law_polling_hears_in_order(rules, bot_user_id, cursors, steps, b);
        let (front, mid) = polled(rules, bot_user_id, cursors, steps, b);
        let (ms, then) = polled(rules, bot_user_id, cursors, steps, k);
        if let PollStep::Page { channel_id, msgs } = steps[k - 1] {
            lemma_orderly_page(cursors, front, mid, rules, bot_user_id, channel_id, msgs);
        }
        assert forall|i: int| 0 <= i < ms.len() implies exists|j: int|
            0 <= j < k && stems_from_page(
                #[trigger] ms[i],
                rules,
                bot_user_id,
                #[trigger] steps[j],
            ) by {
            if i < front.len() {
                assert(ms[i] == front[i]);
                let j = choose|j: int|
                    0 <= j < b && stems_from_page(
                        front[i],
                        rules,
                        bot_user_id,
                        #[trigger] steps[j],
                    );
                assert(stems_from_page(ms[i], rules, bot_user_id, steps[j]));
            } else {
                if let PollStep::Page { channel_id, msgs } = steps[k - 1] {
                    let more = polling::heard_all(rules, bot_user_id, mid, channel_id, msgs).0;
                    assert(ms[i] == more[i - front.len()]);
                    assert(stems_from_page(ms[i], rules, bot_user_id, steps[k - 1]));
                }
            }
        }
    }
}

/// A run of polling.
pub struct PollRun {
    /// The messages that were handed on.
    pub handed: Seq<Heard>,
    /// What happened to the channels.
    pub steps: Seq<PollStep>,
    /// Where polling stands.
    pub at: Round,
}

/// The page that an event brings.
pub open spec fn page_of(at: Round, event: PollEventOn) -> Option<PollStep> {
    match (at.phase, event) {
        (WaitOn::Fetching(channel_id), PollEventOn::Fetched(Some(payload))) => Some(
            PollStep::Page { channel_id, msgs: polling::page_messages(payload) },
        ),
        _ => None,
    }
}

/// The start that an action asks for.
pub open spec fn start_of(action: NextPoll, now_ts: Seq<char>) -> Option<PollStep> {
    match action {
        NextPoll::Fetch { channel_id, .. } => Some(PollStep::Start { channel_id, now_ts }),
        _ => None,
    }
}

/// The steps with one more, if there is one.
pub open spec fn with_step(steps: Seq<PollStep>, step: Option<PollStep>) -> Seq<PollStep> {
    match step {
        Some(x) => steps.push(x),
        None => steps,
    }
}

/// The run of polling after the given events, each one with its moment.
pub open spec fn poll_run(heed: PollHeed, first: Round, events: Seq<(PollEventOn, Moment)>) -> PollRun
    decreases events.len(),
{
    if events.len() == 0 {
        PollRun { handed: Seq::empty(), steps: Seq::empty(), at: first }
    } else {
        let run = poll_run(heed, first, events.drop_last());
        let (event, t) = events.last();
        let (at, action) = rounds::after_poll(heed, run.at, event, t);
        PollRun {
            handed: match action {
                NextPoll::Deliver(m) => run.handed.push(m),
                _ => run.handed,
            },
            steps: with_step(with_step(run.steps, page_of(run.at, event)), start_of(action, t.now_ts)),
            at,
        }
    }
}

/// Later steps do not change what was heard before.
proof fn lemma_polled_before(
    rules: Rules,
    bot_user_id: Seq<char>,
    cursors: Map<Seq<char>, Seq<char>>,
    steps: Seq<PollStep>,
    step: PollStep,
    k: nat,
)
    requires
        k <= steps.len(),
    ensures
        polled(rules, bot_user_id, cursors, steps.push(step), k) == polled(
            rules,
            bot_user_id,
            cursors,
            steps,
            k,
        ),
    decreases k,
{
    if k > 0 {
        lemma_polled_before(rules, bot_user_id, cursors, steps, step, (k - 1) as nat);
        assert(steps.push(step)[k - 1] == steps[k - 1]);
    }
}

/// What was heard in all of the steps.
pub open spec fn polled_in(
    heed: PollHeed,
    cursors: Map<Seq<char>, Seq<char>>,
    steps: Seq<PollStep>,
) -> (Seq<Heard>, Map<Seq<char>, Seq<char>>) {
    polled(heed.rules, heed.bot_user_id, cursors, steps, steps.len())
}

/// What was heard and handed on, and what is still to be handed on, is what was
/// heard in the steps of the run.
proof fn lemma_poll_run(heed: PollHeed, first: Round, events: Seq<(PollEventOn, Moment)>)
    requires
        first.heard.len() == 0,
    ensures
        ({
            let run = poll_run(heed, first, events);
            polled_in(heed, first.cursors, run.steps) == (
                run.handed + run.at.heard,
                run.at.cursors,
            )
        }),
    decreases events.len(),
{
    let run = poll_run(heed, first, events);
    if events.len() == 0 {
        assert(run.handed + run.at.heard == Seq::<Heard>::empty());
    } else {
        let before = poll_run(heed, first, events.drop_last());
        lemma_poll_run(heed, first, events.drop_last());
        let (event, t) = events.last();
        let action = rounds::after_poll(heed, before.at, event, t).1;
        let page = page_of(before.at, event);
        let mid = with_step(before.steps, page);
        let start = start_of(action, t.now_ts);
        if let Some(x) = page {
            lemma_polled_before(
                heed.rules,
                heed.bot_user_id,
                first.cursors,
                before.steps,
                x,
                before.steps.len(),
            );
        }
        if let Some(x) = start {
            lemma_polled_before(
                heed.rules,
                heed.bot_user_id,
                first.cursors,
                mid,
                x,
                mid.len(),
            );
        }
        let (all, cursors) = polled_in(heed, first.cursors, mid);
        let waiting = match page {
            Some(PollStep::Page { channel_id, msgs }) => before.at.heard + polling::heard_all(
                heed.rules,
                heed.bot_user_id,
                before.at.cursors,
                channel_id,
                msgs,
            ).0,
            _ => before.at.heard,
        };
        assert(all == before.handed + waiting);
        if action is Deliver {
            assert(run.at.heard == waiting.skip(1));
            assert(run.handed == before.handed.push(waiting[0]));
            assert(run.handed + run.at.heard == before.handed + waiting);
        }
    }
}

/// Over any run of events, with failures and over any number of rounds, the
/// timestamps that are heard in one channel rise, so that no message is handed
/// on twice. What was handed on, followed by what still waits to be, is what
/// the pages say, in order.
pub proof fn law_polling_hands_on_in_order(
    heed: PollHeed,
    first: Round,
    events: Seq<(PollEventOn, Moment)>,
)
    requires
        first.heard.len() == 0,
    ensures
        ({
            let run = poll_run(heed, first, events);
            &&& polled_in(heed, first.cursors, run.steps) == (
                run.handed + run.at.heard,
                run.at.cursors,
            )
            &&& orderly(first.cursors, run.handed + run.at.heard, run.at.cursors)
        }),
{
    let run = poll_run(heed, first, events);
    lemma_poll_run(heed, first, events);
    law_polling_hears_in_order(
        heed.rules,
        heed.bot_user_id,
        first.cursors,
        run.steps,
        run.steps.len(),
    );
}

/// The time at which the channel was polled for the first time in the steps.
pub open spec fn first_start(steps: Seq<PollStep>, channel_id: Seq<char>) -> Option<Seq<char>>
    decreases steps.len(),
{
    if steps.len() == 0 {
        None
    } else {
        match first_start(steps.drop_last(), channel_id) {
            Some(ts) => Some(ts),
            None => match steps.last() {
                PollStep::Start { channel_id: id, now_ts } => if id == channel_id {
                    Some(now_ts)
                } else {
                    None
                },
                _ => None,
            },
        }
    }
}

/// Before step `k`, the channel of the page that it brings was polled.
spec fn begun_at(steps: Seq<PollStep>, k: int) -> bool {
    steps[k] matches PollStep::Page { channel_id, .. } ==> first_start(
        steps.take(k),
        channel_id,
    ) is Some
}

/// The pages of each channel come after its start.
spec fn begun(steps: Seq<PollStep>) -> bool {
    forall|k: int| 0 <= k < steps.len() ==> #[trigger] begun_at(steps, k)
}

/// A page sets the cursor of its channel only.
proof fn lemma_page_cursors(
    rules: Rules,
    bot_user_id: Seq<char>,
    cursors: Map<Seq<char>, Seq<char>>,
    channel_id: Seq<char>,
    msgs: Seq<Tree>,
    c: Seq<char>,
)
    requires
        c != channel_id,
    ensures
        polling::heard_all(rules, bot_user_id, cursors, channel_id, msgs).1.contains_key(c)
            == cursors.contains_key(c),
    decreases msgs.len(),
{
    if msgs.len() > 0 {
        lemma_page_cursors(rules, bot_user_id, cursors, channel_id, msgs.drop_last(), c);
    }
}

/// A channel that was not polled yet has no cursor.
proof fn lemma_no_cursor(
    heed: PollHeed,
    cursors: Map<Seq<char>, Seq<char>>,
    steps: Seq<PollStep>,
    c: Seq<char>,
    k: nat,
)
    requires
        begun(steps),
        k <= steps.len(),
        !cursors.contains_key(c),
        first_start(steps.take(k as int), c) is None,
    ensures
        !polled(heed.rules, heed.bot_user_id, cursors, steps, k).1.contains_key(c),
    decreases k,
{
    if k > 0 {
        let b = (k - 1) as nat;
        let front = steps.take(k as int);
        assert(front.drop_last() == steps.take(b as int));
        assert(front.last() == steps[k - 1]);
        lemma_no_cursor(heed, cursors, steps, c, b);
        let then = polled(heed.rules, heed.bot_user_id, cursors, steps, b).1;
        assert(begun_at(steps, k - 1));
        if let PollStep::Page { channel_id, msgs } = steps[k - 1] {
            lemma_page_cursors(heed.rules, heed.bot_user_id, then, channel_id, msgs, c);
        }
    }
}

/// A channel gets its first cursor: what was heard so far stays in order, also
/// above that cursor.
proof fn lemma_orderly_first(
    first: Map<Seq<char>, Seq<char>>,
    ms: Seq<Heard>,
    then: Map<Seq<char>, Seq<char>>,
    c: Seq<char>,
    now_ts: Seq<char>,
)
    requires
        orderly(first, ms, then),
        !then.contains_key(c),
    ensures
        orderly(first.insert(c, now_ts), ms, then.insert(c, now_ts)),
{
    let low = first.insert(c, now_ts);
    let after = then.insert(c, now_ts);
    text::lemma_order_total(now_ts, now_ts);
    assert forall|i: int| 0 <= i < ms.len() implies {
        let m = #[trigger] ms[i];
        &&& text::precedes(inbound::last_seen(low, m.channel_id), m.ts)
        &&& after.contains_key(m.channel_id)
        &&& !text::precedes(after[m.channel_id], m.ts)
    } by {
        assert(then.contains_key(ms[i].channel_id));
    }
    assert forall|x: Seq<char>|
        !text::precedes(#[trigger] inbound::last_seen(after, x), inbound::last_seen(low, x)) by {
        assert(!text::precedes(inbound::last_seen(then, x), inbound::last_seen(first, x)));
    }
}

/// The step at which a channel is polled for the first time.
proof fn lemma_first_start(steps: Seq<PollStep>, c: Seq<char>) -> (j: int)
    requires
        first_start(steps, c) is Some,
    ensures
        0 <= j < steps.len(),
        steps[j] == (PollStep::Start { channel_id: c, now_ts: first_start(steps, c)->0 }),
        first_start(steps.take(j), c) is None,
    decreases steps.len(),
{
    let front = steps.drop_last();
    let n = steps.len() - 1;
    assert(steps.take(n) == front);
    if first_start(front, c) is Some {
        let j = lemma_first_start(front, c);
        assert(front.take(j) == steps.take(j));
        j
    } else {
        n
    }
}

/// In steps in which the pages of each channel come after its start, what is
/// heard in a channel is newer than its first start.
proof fn lemma_newer_than_start(
    heed: PollHeed,
    cursors: Map<Seq<char>, Seq<char>>,
    steps: Seq<PollStep>,
    c: Seq<char>,
    i: int,
)
    requires
        begun(steps),
        !cursors.contains_key(c),
        0 <= i < polled_in(heed, cursors, steps).0.len(),
        polled_in(heed, cursors, steps).0[i].channel_id == c,
    ensures
        first_start(steps, c) is Some,
        text::precedes(first_start(steps, c)->0, polled_in(heed, cursors, steps).0[i].ts),
{
    let n = steps.len();
    let (all, then) = polled_in(heed, cursors, steps);
    law_polling_hears_in_order(heed.rules, heed.bot_user_id, cursors, steps, n);
    assert(then.contains_key(all[i].channel_id));
    assert(steps.take(n as int) == steps);
    if first_start(steps, c) is None {
        lemma_no_cursor(heed, cursors, steps, c, n);
    }
    let now_ts = first_start(steps, c)->0;
    let j = lemma_first_start(steps, c) as nat;
    let (ms, before) = polled(heed.rules, heed.bot_user_id, cursors, steps, j);
    lemma_no_cursor(heed, cursors, steps, c, j);
    law_polling_hears_in_order(heed.rules, heed.bot_user_id, cursors, steps, j);
    lemma_orderly_first(cursors, ms, before, c, now_ts);
    let low = cursors.insert(c, now_ts);
    assert(polled(heed.rules, heed.bot_user_id, cursors, steps, j + 1) == (
        ms,
        before.insert(c, now_ts),
    ));
    lemma_orderly_run(heed.rules, heed.bot_user_id, cursors, steps, low, j + 1, n);
    assert(inbound::last_seen(low, c) == now_ts);
    assert(orderly(low, all, then));
}

/// One more step of which the page, if it is one, comes after a start.
proof fn lemma_begun_push(steps: Seq<PollStep>, step: PollStep)
    requires
        begun(steps),
        step matches PollStep::Page { channel_id, .. } ==> first_start(steps, channel_id) is Some,
    ensures
        begun(steps.push(step)),
        forall|c: Seq<char>|
            first_start(steps, c) is Some ==> #[trigger] first_start(steps.push(step), c) is Some,
        step matches PollStep::Start { channel_id, .. } ==> first_start(
            steps.push(step),
            channel_id,
        ) is Some,
{
    let more = steps.push(step);
    assert(more.drop_last() == steps);
    assert forall|k: int| 0 <= k < more.len() implies #[trigger] begun_at(more, k) by {
        assert(more.take(k) == steps.take(k));
        if k < steps.len() {
            assert(begun_at(steps, k));
            assert(more[k] == steps[k]);
        } else {
            assert(steps.take(k) == steps);
        }
    }
}

/// In a run of polling the pages of each channel come after its start.
proof fn lemma_run_begun(heed: PollHeed, first: Round, events: Seq<(PollEventOn, Moment)>)
    requires
        first.phase is Sleeping,
    ensures
        begun(poll_run(heed, first, events).steps),
        poll_run(heed, first, events).at.phase matches WaitOn::Fetching(c) ==> first_start(
            poll_run(heed, first, events).steps,
            c,
        ) is Some,
    decreases events.len(),
{
    if events.len() > 0 {
        let before = poll_run(heed, first, events.drop_last());
        lemma_run_begun(heed, first, events.drop_last());
        let (event, t) = events.last();
        let action = rounds::after_poll(heed, before.at, event, t).1;
        let page = page_of(before.at, event);
        let mid = with_step(before.steps, page);
        if let Some(x) = page {
            lemma_begun_push(before.steps, x);
        }
        if let Some(x) = start_of(action, t.now_ts) {
            lemma_begun_push(mid, x);
        }
    }
}

/// Whatever is heard in a channel is newer than the time at which it was polled
/// for the first time: its history is not replayed.
pub proof fn law_polling_starts_at_the_present(
    heed: PollHeed,
    first: Round,
    events: Seq<(PollEventOn, Moment)>,
    i: int,
)
    requires
        first.phase is Sleeping,
        first.heard.len() == 0,
        ({
            let run = poll_run(heed, first, events);
            let all = run.handed + run.at.heard;
            0 <= i < all.len() && !first.cursors.contains_key(all[i].channel_id)
        }),
    ensures
        ({
            let run = poll_run(heed, first, events);
            let m = (run.handed + run.at.heard)[i];
            first_start(run.steps, m.channel_id) matches Some(now_ts) && text::precedes(
                now_ts,
                m.ts,
            )
        }),
{
    let run = poll_run(heed, first, events);
    lemma_poll_run(heed, first, events);
    lemma_run_begun(heed, first, events);
    let all = run.handed + run.at.heard;
    lemma_newer_than_start(heed, first.cursors, run.steps, all[i].channel_id, i);
}

/// Finds the event that stopped polling.
proof fn lemma_poll_stop(heed: PollHeed, first: Round, events: Seq<(PollEventOn, Moment)>) -> (k:
    int)
    requires
        first.phase is Sleeping,
        poll_run(heed, first, events).at.phase is Stopped,
    ensures
        0 <= k < events.len(),
        events[k].0 == PollEventOn::Taken(false),
        poll_run(heed, first, events.take(k)).at.phase is Delivering,
    decreases events.len(),
{
    let n = events.len() - 1;
    let es = events.drop_last();
    assert(es == events.take(n));
    if poll_run(heed, first, es).at.phase is Stopped {
        let k = lemma_poll_stop(heed, first, es);
        assert(es.take(k) == events.take(k));
        k
    } else {
        n
    }
}

/// Polling stops only when a message was handed on and nobody listens any more;
/// no failure ends it.
pub proof fn law_polling_stops_only_unheard(
    heed: PollHeed,
    first: Round,
    events: Seq<(PollEventOn, Moment)>,
)
    requires
        first.phase is Sleeping,
        poll_run(heed, first, events).at.phase is Stopped,
    ensures
        exists|k: int|
            0 <= k < events.len() && (#[trigger] events[k]).0 == PollEventOn::Taken(false)
                && poll_run(heed, first, events.take(k)).at.phase is Delivering,
{
    let k = lemma_poll_stop(heed, first, events);
    assert(events[k].0 == PollEventOn::Taken(false));
}

} // verus!
