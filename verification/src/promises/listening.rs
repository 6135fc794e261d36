//! Listening as a whole, step by step.

use vstd::prelude::*;
use crate::inbound::Heard;
use crate::json;
use crate::json::Tree;
use crate::outside;
use crate::polling;
use crate::rounds;
use crate::rounds::{Moment, NextPoll, PollEventOn, PollHeed, Round, WaitOn};
use crate::sessions;
use crate::sessions::{Heed, NextAction, NoticeOn, PhaseOn, SocketEvent, Standing};
use crate::sockets::SocketFrame;

verus! {

/// A session asks for an address, connects to it and reads. Whatever fails, it
/// pauses and asks for an address again. What it heard so far stays known.
pub proof fn law_sessions_reconnect(heed: Heed, at: Standing, frame: SocketFrame)
    ensures
        at.phase is Opening ==> {
            let (then, action) = sessions::after_event(heed, at, SocketEvent::Opened(true));
            &&& action is Connect
            &&& then.phase is Connecting && then.cursors == at.cursors
        },
        at.phase is Opening ==> sessions::after_event(heed, at, SocketEvent::Opened(false)).1
            is Pause,
        at.phase is Connecting ==> {
            let (then, action) = sessions::after_event(heed, at, SocketEvent::Connected(true));
            &&& action is Read
            &&& then.phase is Reading && then.cursors == at.cursors
        },
        at.phase is Connecting ==> sessions::after_event(
            heed,
            at,
            SocketEvent::Connected(false),
        ).1 is Pause,
        at.phase is Reading ==> sessions::after_event(heed, at, SocketEvent::Ended).1 is Pause,
        at.phase is Pausing ==> {
            let (then, action) = sessions::after_event(heed, at, SocketEvent::Paused);
            &&& action is Open
            &&& then.phase is Opening && then.cursors == at.cursors
        },
        at.phase is Ponging ==> sessions::after_event(heed, at, SocketEvent::Sent(true)).1
            is Read && sessions::after_event(heed, at, SocketEvent::Sent(true)).0.phase is Reading,
        at.phase is Ponging ==> sessions::after_event(heed, at, SocketEvent::Sent(false)).1
            is Pause,
        at.phase is Acking ==> sessions::after_event(heed, at, SocketEvent::Sent(false)).1 is Pause,
        at.phase is Delivering ==> sessions::after_event(heed, at, SocketEvent::Taken(true)).1
            is Read && sessions::after_event(heed, at, SocketEvent::Taken(true)).0.phase
            is Reading,
        at.phase is Delivering ==> sessions::after_event(heed, at, SocketEvent::Taken(false)).1
            is Stop,
        forall|event: SocketEvent|
            !(at.phase is Stopped) && #[trigger] sessions::after_event(heed, at, event).1
                is Pause ==> sessions::after_event(heed, at, event).0.phase is Pausing
                && sessions::after_event(heed, at, event).0.cursors == at.cursors,
        forall|event: SocketEvent|
            !(#[trigger] sessions::after_event(heed, at, event).1 is Deliver)
                ==> sessions::after_event(heed, at, event).0.cursors == at.cursors,
        forall|event: SocketEvent|
            at.phase is Stopped ==> #[trigger] sessions::after_event(heed, at, event).1 is Stop,
{
}

/// A session answers a ping, leaves a connection that is closed or cannot be
/// read, passes over texts that are no JSON documents and frames of other kinds,
/// and answers an envelope with an identifier by that identifier.
pub proof fn law_frames_are_answered(
    heed: Heed,
    at: Standing,
    t: String,
    envelope: Tree,
    id: Seq<char>,
)
    requires
        at.phase is Reading,
    ensures
        sessions::after_event(heed, at, SocketEvent::Arrived(SocketFrame::Ping)).1 is Pong,
        sessions::after_event(heed, at, SocketEvent::Arrived(SocketFrame::Ping)).0.phase is Ponging,
        sessions::after_event(heed, at, SocketEvent::Arrived(SocketFrame::Close)).1
            == NextAction::Pause(NoticeOn::Closed),
        sessions::after_event(heed, at, SocketEvent::Arrived(SocketFrame::Failed)).1 is Pause,
        sessions::after_event(heed, at, SocketEvent::Arrived(SocketFrame::Other)).1
            == NextAction::Read(NoticeOn::Nothing),
        outside::json_document(t@) is None ==> sessions::after_event(
            heed,
            at,
            SocketEvent::Arrived(SocketFrame::Text(t)),
        ).1 == NextAction::Read(NoticeOn::NotJson),
        outside::json_document(t@) == Some(envelope) && json::member(envelope, "envelope_id"@)
            == Some(Tree::Text(id)) ==> sessions::after_event(
            heed,
            at,
            SocketEvent::Arrived(SocketFrame::Text(t)),
        ) == (
            (Standing { phase: PhaseOn::Acking(envelope), cursors: at.cursors }),
            NextAction::Ack(outside::json_object_text(seq![("envelope_id"@, id)])),
        ),
        outside::json_document(t@) == Some(envelope) && !(json::member(envelope, "envelope_id"@)
            matches Some(Tree::Text(_))) ==> sessions::after_event(
            heed,
            at,
            SocketEvent::Arrived(SocketFrame::Text(t)),
        ) == sessions::handle(heed, at.cursors, envelope),
        sessions::after_event(
            heed,
            (Standing { phase: PhaseOn::Acking(envelope), cursors: at.cursors }),
            SocketEvent::Sent(true),
        ) == sessions::handle(heed, at.cursors, envelope),
{
}

/// The channels of a round.
pub open spec fn channels_of(at: Round) -> Seq<Seq<char>> {
    match at.scope {
        Some(ids) => ids,
        None => at.discovered,
    }
}

/// The list of channels is due: no channels are configured, and none are known or
/// the last time is a minute or more ago.
pub open spec fn list_due(at: Round, now: int) -> bool {
    at.scope is None && (at.discovered.len() == 0 || now - at.last_discovery >= 60
        * 1_000_000_000)
}

/// Where polling stands, and what it does, after the time between two rounds and
/// then a number of requests for history that failed.
pub open spec fn failed_requests(heed: PollHeed, at: Round, t: Moment, k: nat) -> (Round, NextPoll)
    decreases k,
{
    if k == 0 {
        rounds::after_poll(heed, at, PollEventOn::Slept, t)
    } else {
        let (then, _) = failed_requests(heed, at, t, (k - 1) as nat);
        rounds::after_poll(heed, then, PollEventOn::Fetched(None), t)
    }
}

/// Each round asks every channel for its history, in order, also where requests
/// fail, and then waits for the next round. A channel is asked for what comes
/// after its cursor, or after the present if it has none, ten messages at a
/// time.
pub proof fn law_rounds_poll_every_channel(heed: PollHeed, at: Round, t: Moment, k: nat)
    requires
        at.phase is Sleeping,
        at.heard.len() == 0,
        !list_due(at, t.now),
        k <= channels_of(at).len(),
    ensures
        ({
            let cs = channels_of(at);
            let (then, action) = failed_requests(heed, at, t, k);
            &&& then.heard.len() == 0
            &&& then.left == if k < cs.len() {
                cs.skip((k + 1) as int)
            } else {
                Seq::empty()
            }
            &&& then.scope == at.scope && then.discovered == at.discovered && then.last_discovery
                == at.last_discovery
            &&& forall|c: Seq<char>| #[trigger]
                at.cursors.contains_key(c) ==> then.cursors.contains_key(c) && then.cursors[c]
                    == at.cursors[c]
            &&& k < cs.len() ==> then.phase == WaitOn::Fetching(cs[k as int])
            &&& k < cs.len() ==> (action matches NextPoll::Fetch { channel_id, query, .. } && {
                &&& channel_id == cs[k as int]
                &&& then.cursors.contains_key(channel_id)
                &&& query == seq![
                    ("channel"@, channel_id),
                    ("limit"@, "10"@),
                    ("oldest"@, then.cursors[channel_id]),
                ]
            })
            &&& k < cs.len() && at.cursors.contains_key(cs[k as int]) ==> then.cursors[cs[k as int]]
                == at.cursors[cs[k as int]]
            &&& k < cs.len() && !at.cursors.contains_key(cs[k as int])
                ==> then.cursors[cs[k as int]] == t.now_ts
            &&& k == cs.len() ==> action is Sleep && then.phase is Sleeping
            &&& forall|c: Seq<char>| #[trigger]
                then.cursors.contains_key(c) && !at.cursors.contains_key(c) ==> then.cursors[c]
                    == t.now_ts
        }),
    decreases k,
{
    let cs = channels_of(at);
    if k > 0 {
        law_rounds_poll_every_channel(heed, at, t, (k - 1) as nat);
        let then = failed_requests(heed, at, t, (k - 1) as nat).0;
        assert(then.left == cs.skip(k as int));
        if k < cs.len() {
            assert(cs.skip(k as int)[0] == cs[k as int]);
            assert(cs.skip(k as int).skip(1) == cs.skip((k + 1) as int));
        }
    } else if cs.len() == 0 {
        assert(cs == Seq::<Seq<char>>::empty());
    }
}

/// The channels are listed when that is due, and only then. A new list takes the
/// place of the old one, and a failure leaves it.
pub proof fn law_channels_are_discovered(heed: PollHeed, at: Round, t: Moment, ids: Seq<Seq<char>>)
    requires
        at.heard.len() == 0,
    ensures
        at.phase is Sleeping && list_due(at, t.now) ==> rounds::after_poll(
            heed,
            at,
            PollEventOn::Slept,
            t,
        ) == ((Round { phase: WaitOn::Discovering, ..at }), NextPoll::Discover),
        at.phase is Sleeping && !list_due(at, t.now) ==> !(rounds::after_poll(
            heed,
            at,
            PollEventOn::Slept,
            t,
        ).1 is Discover),
        at.phase is Discovering ==> {
            let (then, action) = rounds::after_poll(heed, at, PollEventOn::Found(Some(ids)), t);
            &&& then.discovered == ids && then.last_discovery == t.now && then.scope == at.scope
            &&& at.scope is None && ids.len() > 0 ==> (action matches NextPoll::Fetch {
                channel_id,
                ..
            } && channel_id == ids[0] && then.left == ids.skip(1))
            &&& at.scope is None && ids.len() == 0 ==> action is Sleep
        },
        at.phase is Discovering ==> {
            let (then, action) = rounds::after_poll(heed, at, PollEventOn::Found(None), t);
            &&& then.discovered == at.discovered && then.last_discovery == t.now
            &&& at.scope is None && at.discovered.len() > 0 ==> (action matches NextPoll::Fetch {
                channel_id,
                ..
            } && channel_id == at.discovered[0] && then.left == at.discovered.skip(1))
        },
{
}

/// Where polling stands, and what it does, after a page came and a number of its
/// messages were taken.
pub open spec fn taken_messages(heed: PollHeed, at: Round, payload: Tree, t: Moment, k: nat) -> (
    Round,
    NextPoll,
)
    decreases k,
{
    if k == 0 {
        rounds::after_poll(heed, at, PollEventOn::Fetched(Some(payload)), t)
    } else {
        let (then, _) = taken_messages(heed, at, payload, t, (k - 1) as nat);
        rounds::after_poll(heed, then, PollEventOn::Taken(true), t)
    }
}

/// All messages that are heard of a page are handed on, in order, before the next
/// channel is polled.
pub proof fn law_pages_are_handed_on_completely(
    heed: PollHeed,
    at: Round,
    channel_id: Seq<char>,
    payload: Tree,
    t: Moment,
    k: nat,
)
    requires
        at.phase == WaitOn::Fetching(channel_id),
        at.heard.len() == 0,
        k <= polling::heard_all(
            heed.rules,
            heed.bot_user_id,
            at.cursors,
            channel_id,
            polling::page_messages(payload),
        ).0.len(),
    ensures
        ({
            let (ms, cursors) = polling::heard_all(
                heed.rules,
                heed.bot_user_id,
                at.cursors,
                channel_id,
                polling::page_messages(payload),
            );
            let (then, action) = taken_messages(heed, at, payload, t, k);
            &&& k < ms.len() ==> action == NextPoll::Deliver(ms[k as int])
            &&& k < ms.len() ==> then.phase is Delivering && then.left == at.left && then.cursors
                == cursors && then.heard == ms.skip((k + 1) as int) && then.scope == at.scope
                && then.discovered == at.discovered && then.last_discovery == at.last_discovery
            &&& k == ms.len() && at.left.len() > 0 ==> (action matches NextPoll::Fetch {
                channel_id: next,
                ..
            } && next == at.left[0] && then.left == at.left.skip(1))
            &&& k == ms.len() && at.left.len() == 0 ==> action is Sleep
            &&& k == ms.len() ==> then.heard.len() == 0
        }),
    decreases k,
{
    let (ms, cursors) = polling::heard_all(
        heed.rules,
        heed.bot_user_id,
        at.cursors,
        channel_id,
        polling::page_messages(payload),
    );
    assert(Seq::<Heard>::empty() + ms == ms);
    assert(at.heard + ms == ms);
    if k > 0 {
        law_pages_are_handed_on_completely(
            heed,
            at,
            channel_id,
            payload,
            t,
            (k - 1) as nat,
        );
        let then = taken_messages(heed, at, payload, t, (k - 1) as nat).0;
        assert(then.heard == ms.skip(k as int));
        if k < ms.len() {
            assert(ms.skip(k as int)[0] == ms[k as int]);
            assert(ms.skip(k as int).skip(1) == ms.skip((k + 1) as int));
        }
    }
}

} // verus!
