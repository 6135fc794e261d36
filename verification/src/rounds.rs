//! Polling as a whole: from one event to the next action, round after round.

use vstd::prelude::*;
use crate::channel;
use crate::channel::SlackChannel;
use crate::clock;
use crate::clock::Span;
use crate::inbound::{Heard, Inbound, Rules};
use crate::json::{Json, Tree};
use crate::outside;
use crate::polling;
use crate::polling::Poller;
use crate::sockets;
use crate::text;

verus! {

/// What happened since the last action.
pub enum PollEvent {
    /// The time between two rounds is over.
    Slept,
    /// The channels were listed, or that failed.
    Found(Option<Vec<String>>),
    /// A page of history came, or that failed.
    Fetched(Option<Json>),
    /// A message was handed on; whether anyone still listens.
    Taken(bool),
}

/// What to do next.
pub enum PollAction {
    /// Wait for the next round.
    Sleep,
    /// List the channels.
    Discover,
    /// Fetch the history of a channel.
    Fetch {
        /// The channel.
        channel_id: String,
        /// The query.
        query: Vec<(String, String)>,
        /// The channel is polled for the first time.
        first: bool,
    },
    /// Hand on a message.
    Deliver(Inbound),
    /// Listen no more.
    Stop,
}

/// What polling waits for.
pub enum PollPhase {
    Sleeping,
    Discovering,
    /// The history of the channel is being fetched.
    Fetching(String),
    Delivering,
    Stopped,
}

/// What to do next, as contracts speak of it.
pub enum NextPoll {
    Sleep,
    Discover,
    Fetch { channel_id: Seq<char>, query: Seq<(Seq<char>, Seq<char>)>, first: bool },
    Deliver(Heard),
    Stop,
}

/// What polling waits for, as contracts speak of it.
pub enum WaitOn {
    Sleeping,
    Discovering,
    Fetching(Seq<char>),
    Delivering,
    Stopped,
}

/// What happened, as contracts speak of it.
pub enum PollEventOn {
    Slept,
    Found(Option<Seq<Seq<char>>>),
    Fetched(Option<Tree>),
    Taken(bool),
}

impl View for PollAction {
    type V = NextPoll;

    open spec fn view(&self) -> NextPoll {
        match self {
            PollAction::Sleep => NextPoll::Sleep,
            PollAction::Discover => NextPoll::Discover,
            PollAction::Fetch { channel_id, query, first } => NextPoll::Fetch {
                channel_id: channel_id@,
                query: outside::fields(query@),
                first: *first,
            },
            PollAction::Deliver(m) => NextPoll::Deliver(m@),
            PollAction::Stop => NextPoll::Stop,
        }
    }
}

impl View for PollPhase {
    type V = WaitOn;

    open spec fn view(&self) -> WaitOn {
        match self {
            PollPhase::Sleeping => WaitOn::Sleeping,
            PollPhase::Discovering => WaitOn::Discovering,
            PollPhase::Fetching(id) => WaitOn::Fetching(id@),
            PollPhase::Delivering => WaitOn::Delivering,
            PollPhase::Stopped => WaitOn::Stopped,
        }
    }
}

impl View for PollEvent {
    type V = PollEventOn;

    open spec fn view(&self) -> PollEventOn {
        match self {
            PollEvent::Slept => PollEventOn::Slept,
            PollEvent::Found(ids) => PollEventOn::Found(sockets::opt_strings(*ids)),
            PollEvent::Fetched(Some(payload)) => PollEventOn::Fetched(Some(payload@)),
            PollEvent::Fetched(None) => PollEventOn::Fetched(None),
            PollEvent::Taken(ok) => PollEventOn::Taken(*ok),
        }
    }
}

/// Where polling stands.
pub struct Round {
    /// What polling waits for.
    pub phase: WaitOn,
    /// The channels that are configured, if any are.
    pub scope: Option<Seq<Seq<char>>>,
    /// The channels that were discovered.
    pub discovered: Seq<Seq<char>>,
    /// The time of the last discovery, or of the start.
    pub last_discovery: int,
    /// How far each channel was heard.
    pub cursors: Map<Seq<char>, Seq<char>>,
    /// The channels still to be polled in this round.
    pub left: Seq<Seq<char>>,
    /// The messages still to be handed on.
    pub heard: Seq<Heard>,
}

/// What polling heeds: the rules of the channel and the bot's own user.
pub struct PollHeed {
    pub rules: Rules,
    pub bot_user_id: Seq<char>,
}

/// A moment: the time since the start, and the timestamp of the present.
pub struct Moment {
    pub now: int,
    pub now_ts: Seq<char>,
}

/// Polls the next channel, or waits for the next round.
pub open spec fn next_channel(at: Round, now_ts: Seq<char>) -> (Round, NextPoll) {
    if at.left.len() == 0 {
        (Round { phase: WaitOn::Sleeping, ..at }, NextPoll::Sleep)
    } else {
        let channel_id = at.left[0];
        let cursors = channel::cursors_with(at.cursors, channel_id, now_ts);
        (
            Round { phase: WaitOn::Fetching(channel_id), cursors, left: at.left.skip(1), ..at },
            NextPoll::Fetch {
                channel_id,
                query: polling::history_fields(channel_id, cursors[channel_id]),
                first: !at.cursors.contains_key(channel_id),
            },
        )
    }
}

/// Hands on the next message, or polls the next channel.
pub open spec fn hand_on(at: Round, now_ts: Seq<char>) -> (Round, NextPoll) {
    if at.heard.len() == 0 {
        next_channel(at, now_ts)
    } else {
        (
            Round { phase: WaitOn::Delivering, heard: at.heard.skip(1), ..at },
            NextPoll::Deliver(at.heard[0]),
        )
    }
}

/// Begins a round over the channels that are configured, else over those that
/// were discovered.
pub open spec fn begin_round(at: Round, now_ts: Seq<char>) -> (Round, NextPoll) {
    next_channel(
        Round {
            left: match at.scope {
                Some(ids) => ids,
                None => at.discovered,
            },
            ..at
        },
        now_ts,
    )
}

/// The channels have to be discovered.
pub open spec fn discovery_due(at: Round, t: Moment) -> bool {
    at.scope is None && (at.discovered.len() == 0 || clock::elapsed(t.now, at.last_discovery)
        >= polling::DISCOVERY_INTERVAL_SECS * 1_000_000_000)
}

/// The next action after an event, and where polling stands then. In each round
/// every channel is polled, one after the other, and what is heard in one is
/// handed on before the next. A failure passes over the channel. Polling stops
/// when nobody takes its messages any more. An event that does not answer the
/// last action is passed over.
pub open spec fn after_poll(heed: PollHeed, at: Round, event: PollEventOn, t: Moment) -> (
    Round,
    NextPoll,
) {
    match (at.phase, event) {
        (WaitOn::Stopped, _) => (at, NextPoll::Stop),
        (WaitOn::Sleeping, PollEventOn::Slept) => if discovery_due(at, t) {
            (Round { phase: WaitOn::Discovering, ..at }, NextPoll::Discover)
        } else {
            begin_round(at, t.now_ts)
        },
        (WaitOn::Discovering, PollEventOn::Found(Some(ids))) => begin_round(
            Round { discovered: ids, last_discovery: t.now, ..at },
            t.now_ts,
        ),
        (WaitOn::Discovering, PollEventOn::Found(None)) => begin_round(
            Round { last_discovery: t.now, ..at },
            t.now_ts,
        ),
        (WaitOn::Fetching(channel_id), PollEventOn::Fetched(Some(payload))) => {
            let (more, cursors) = polling::heard_all(
                heed.rules,
                heed.bot_user_id,
                at.cursors,
                channel_id,
                polling::page_messages(payload),
            );
            hand_on(Round { cursors, heard: at.heard + more, ..at }, t.now_ts)
        },
        (WaitOn::Delivering, PollEventOn::Taken(false)) => (
            Round { phase: WaitOn::Stopped, ..at },
            NextPoll::Stop,
        ),
        _ => hand_on(at, t.now_ts),
    }
}

/// Listening by polling.
pub struct PollSession {
    /// The channels, and how far they were heard.
    pub poller: Poller,
    /// What polling waits for.
    pub phase: PollPhase,
    /// The channels still to be polled in this round.
    pub left: Vec<String>,
    /// The messages still to be handed on.
    pub heard: Vec<Inbound>,
}

impl PollSession {
    /// Where polling stands.
    pub open spec fn round(self) -> Round {
        Round {
            phase: self.phase@,
            scope: sockets::opt_strings(self.poller.scope),
            discovered: text::strings(self.poller.discovered@),
            last_discovery: self.poller.last_discovery@,
            cursors: self.poller.cursors@,
            left: text::strings(self.left@),
            heard: polling::all_heard(self.heard@),
        }
    }

    /// What polling heeds, for a channel with the given rules.
    pub open spec fn heed(self, rules: Rules) -> PollHeed {
        PollHeed { rules, bot_user_id: self.poller.bot_user_id@ }
    }

    /// The start of polling, whose first action is to wait for the first round.
    pub fn new(scope: Option<Vec<String>>, bot_user_id: String, now: Span) -> (r: PollSession)
        ensures
            r.poller.bot_user_id == bot_user_id,
            r.round() == (Round {
                phase: WaitOn::Sleeping,
                scope: sockets::opt_strings(scope),
                discovered: Seq::empty(),
                last_discovery: now@,
                cursors: Map::empty(),
                left: Seq::empty(),
                heard: Seq::empty(),
            }),
    {
        let r = PollSession {
            poller: Poller::new(scope, bot_user_id, now),
            phase: PollPhase::Sleeping,
            left: Vec::new(),
            heard: Vec::new(),
        };
        proof {
            assert(r.round().discovered == Seq::<Seq<char>>::empty());
            assert(r.round().left == Seq::<Seq<char>>::empty());
            assert(r.round().heard == Seq::<Heard>::empty());
        }
        r
    }

    /// Polls the next channel, or waits for the next round.
    fn go_on(&mut self, now_ts: &str) -> (r: PollAction)
        ensures
            (final(self).round(), r@) == next_channel(
                old(self).round(),
                now_ts@,
            ),
            final(self).poller.bot_user_id == old(self).poller.bot_user_id,
    {
        let ghost before = self.round();
        if self.left.len() == 0 {
            self.phase = PollPhase::Sleeping;
            proof {
                assert(self.round() == (Round { phase: WaitOn::Sleeping, ..before }));
            }
            return PollAction::Sleep;
        }
        let channel_id = self.left.remove(0);
        let first = self.poller.cursors.get(channel_id.as_str()).is_none();
        let query = self.poller.start_channel(channel_id.as_str(), now_ts);
        self.phase = PollPhase::Fetching(channel_id.clone());
        proof {
            assert(channel_id@ == before.left[0]);
            assert(self.round().left == before.left.skip(1));
        }
        PollAction::Fetch { channel_id, query, first }
    }

    /// Hands on the next message, or polls the next channel.
    fn pass_on(&mut self, now_ts: &str) -> (r: PollAction)
        ensures
            (final(self).round(), r@) == hand_on(
                old(self).round(),
                now_ts@,
            ),
            final(self).poller.bot_user_id == old(self).poller.bot_user_id,
    {
        if self.heard.len() == 0 {
            return self.go_on(now_ts);
        }
        let ghost before = self.round();
        let m = self.heard.remove(0);
        self.phase = PollPhase::Delivering;
        proof {
            assert(m@ == before.heard[0]);
            assert(self.round().heard == before.heard.skip(1));
        }
        PollAction::Deliver(m)
    }

    /// Begins a round.
    fn begin(&mut self, now_ts: &str) -> (r: PollAction)
        ensures
            (final(self).round(), r@) == begin_round(
                old(self).round(),
                now_ts@,
            ),
            final(self).poller.bot_user_id == old(self).poller.bot_user_id,
    {
        self.left = self.poller.targets();
        self.go_on(now_ts)
    }

    /// Decides what to do after an event, at the time `now` since the start,
    /// which is `now_ts` as a timestamp.
    pub fn step(&mut self, slack: &SlackChannel, event: PollEvent, now: Span, now_ts: &str) -> (r:
        PollAction)
        ensures
            (final(self).round(), r@) == after_poll(
                old(self).heed(slack.rules()),
                old(self).round(),
                event@,
                (Moment { now: now@, now_ts: now_ts@ }),
            ),
            final(self).poller.bot_user_id == old(self).poller.bot_user_id,
    {
        let ghost before = self.round();
        match (&self.phase, event) {
            (PollPhase::Stopped, _) => PollAction::Stop,
            (PollPhase::Sleeping, PollEvent::Slept) => {
                if self.poller.needs_discovery(now) {
                    self.phase = PollPhase::Discovering;
                    PollAction::Discover
                } else {
                    self.begin(now_ts)
                }
            },
            (PollPhase::Discovering, PollEvent::Found(ids)) => {
                self.poller.on_discovery(ids, now);
                self.begin(now_ts)
            },
            (PollPhase::Fetching(channel_id), PollEvent::Fetched(Some(payload))) => {
                let mut more = self.poller.on_history(slack, channel_id.as_str(), &payload);
                let ghost heard = polling::all_heard(more@);
                self.heard.append(&mut more);
                proof {
                    assert(self.round().heard == before.heard + heard);
                }
                self.pass_on(now_ts)
            },
            (PollPhase::Delivering, PollEvent::Taken(false)) => {
                self.phase = PollPhase::Stopped;
                PollAction::Stop
            },
            _ => self.pass_on(now_ts),
        }
    }
}

} // verus!
