//! Which messages are heard, and what is made of them.

use vstd::prelude::*;
use crate::channel;
use crate::inbound;
use crate::inbound::{Heard, Rules};
use crate::json;
use crate::json::Tree;
use crate::polling;
use crate::promises::words;
use crate::sessions;
use crate::sessions::{Heed, NextAction, NoticeOn, PhaseOn, Standing};
use crate::sockets;
use crate::sockets::StepOn;
use crate::text;

verus! {

/// Where no mention is required, what a message says is its text without the
/// white space around it, whether it mentions the bot or not.
pub proof fn law_content_is_the_text(
    a: Seq<char>,
    t: Seq<char>,
    b: Seq<char>,
    bot_user_id: Seq<char>,
)
    requires
        words::blank(a),
        words::bare(t),
        words::blank(b),
    ensures
        channel::content(words::padded(a, t, b), false, bot_user_id) == Some(t),
{
    words::law_trim_gives_what_is_padded(a, t, b);
}

/// A blank message says nothing.
pub proof fn law_blank_messages_say_nothing(
    s: Seq<char>,
    require_mention: bool,
    bot_user_id: Seq<char>,
)
    requires
        words::blank(s),
    ensures
        channel::content(s, require_mention, bot_user_id) is None,
{
    words::law_trim_leaves_nothing_of_blanks(s);
}

/// The text holds the other one somewhere.
pub open spec fn holds(s: Seq<char>, p: Seq<char>) -> bool {
    exists|a: Seq<char>, b: Seq<char>| s == #[trigger] words::padded(a, p, b)
}

/// The text mentions the user: `<@`, the user and `>` stand in it.
pub open spec fn calls(s: Seq<char>, user_id: Seq<char>) -> bool {
    holds(s, seq!['<', '@'] + user_id + seq!['>'])
}

/// A text that holds another has it at some position.
proof fn lemma_holds(s: Seq<char>, p: Seq<char>)
    ensures
        holds(s, p) == exists|i: int| text::occurs_at(s, i, p),
{
    if holds(s, p) {
        let (a, b) = choose|a: Seq<char>, b: Seq<char>| s == #[trigger] words::padded(a, p, b);
        let i = a.len() as int;
        assert(s.subrange(i, i + p.len()) == p);
        assert(text::occurs_at(s, i, p));
    }
    if exists|i: int| text::occurs_at(s, i, p) {
        let i = choose|i: int| text::occurs_at(s, i, p);
        assert(s == words::padded(s.take(i), p, s.skip(i + p.len())));
    }
}

/// The mention of a user as contracts speak of it.
proof fn lemma_mention(user_id: Seq<char>)
    ensures
        channel::mention(user_id) == seq!['<', '@'] + user_id + seq!['>'],
{
    reveal_strlit("<@");
    reveal_strlit(">");
    assert("<@"@ == seq!['<', '@']);
    assert(">"@ == seq!['>']);
}

/// Where a mention is required, a message that does not mention the bot says
/// nothing to it, and nobody mentions a bot without a user.
pub proof fn law_unaddressed_messages_say_nothing(s: Seq<char>, bot_user_id: Seq<char>)
    ensures
        channel::content(s, true, Seq::empty()) is None,
        !calls(s, bot_user_id) ==> channel::content(s, true, bot_user_id) is None,
        bot_user_id.len() > 0 ==> channel::mentions(s, bot_user_id) == calls(s, bot_user_id),
{
    lemma_mention(bot_user_id);
    lemma_holds(s, channel::mention(bot_user_id));
}

/// The parts of a text with the mention of a user between them.
pub open spec fn called_between(parts: Seq<Seq<char>>, user_id: Seq<char>) -> Seq<char>
    decreases parts.len(),
{
    if parts.len() == 0 {
        Seq::empty()
    } else if parts.len() == 1 {
        parts[0]
    } else {
        parts[0] + (seq!['<', '@'] + user_id + seq!['>']) + called_between(parts.skip(1), user_id)
    }
}

/// The parts of a text with spaces between them.
pub open spec fn spaced(parts: Seq<Seq<char>>) -> Seq<char>
    decreases parts.len(),
{
    if parts.len() == 0 {
        Seq::empty()
    } else if parts.len() == 1 {
        parts[0]
    } else {
        parts[0] + seq![' '] + spaced(parts.skip(1))
    }
}

/// A text before a mention, without angle brackets in it, does not hide the
/// mention.
proof fn lemma_first_mention(a: Seq<char>, m: Seq<char>, b: Seq<char>)
    requires
        m.len() > 0,
        forall|k: int| 0 <= k < a.len() ==> #[trigger] a[k] != m[0],
    ensures
        text::find(a + m + b, m, 0) == Some(a.len() as int),
{
    let s = a + m + b;
    let n = a.len() as int;
    assert(s.subrange(n, n + m.len()) == m);
    text::lemma_find(s, m, 0);
    assert(text::occurs_at(s, n, m));
    if let Some(k) = text::find(s, m, 0) {
        if k < n {
            assert(s.subrange(k, k + m.len())[0] == s[k]);
            assert(s[k] == a[k]);
        } else if n < k {
            assert(!text::occurs_at(s, n, m));
        }
    }
}

/// Mentions between parts are replaced by spaces.
proof fn lemma_mentions_replaced(parts: Seq<Seq<char>>, user_id: Seq<char>)
    requires
        parts.len() > 0,
        forall|i: int| 0 <= i < parts.len() ==> !(#[trigger] parts[i]).contains('<'),
    ensures
        text::replace_all(
            called_between(parts, user_id),
            seq!['<', '@'] + user_id + seq!['>'],
            seq![' '],
        ) == spaced(parts),
    decreases parts.len(),
{
    let m = seq!['<', '@'] + user_id + seq!['>'];
    let s = called_between(parts, user_id);
    assert(!parts[0].contains('<'));
    assert forall|k: int| 0 <= k < parts[0].len() implies #[trigger] parts[0][k] != '<' by {
        assert(parts[0].contains(parts[0][k]));
    }
    assert(m[0] == '<');
    if parts.len() == 1 {
        text::lemma_find(s, m, 0);
        if let Some(k) = text::find(s, m, 0) {
            assert(s.subrange(k, k + m.len())[0] == s[k]);
        }
    } else {
        let rest = parts.skip(1);
        assert forall|i: int| 0 <= i < rest.len() implies !(#[trigger] rest[i]).contains('<') by {
            assert(rest[i] == parts[i + 1]);
        }
        lemma_mentions_replaced(rest, user_id);
        let b = called_between(rest, user_id);
        lemma_first_mention(parts[0], m, b);
        let n = parts[0].len() as int;
        assert(s.take(n) == parts[0]);
        assert(s.skip(n + m.len()) == b);
    }
}

/// Where a mention is required, what a message that mentions the bot says is its
/// text with a space for each mention, without the white space around it.
pub proof fn law_addressed_messages_lose_their_mentions(
    parts: Seq<Seq<char>>,
    bot_user_id: Seq<char>,
    a: Seq<char>,
    t: Seq<char>,
    b: Seq<char>,
)
    requires
        bot_user_id.len() > 0,
        parts.len() > 1,
        forall|i: int| 0 <= i < parts.len() ==> !(#[trigger] parts[i]).contains('<'),
        words::blank(a),
        words::blank(b),
        spaced(parts) == words::padded(a, t, b),
    ensures
        words::bare(t) ==> channel::content(called_between(parts, bot_user_id), true, bot_user_id)
            == Some(t),
        t.len() == 0 ==> channel::content(
            called_between(parts, bot_user_id),
            true,
            bot_user_id,
        ) is None,
{
    let m = seq!['<', '@'] + bot_user_id + seq!['>'];
    let s = called_between(parts, bot_user_id);
    lemma_mention(bot_user_id);
    lemma_mentions_replaced(parts, bot_user_id);
    assert(s == words::padded(parts[0], m, called_between(parts.skip(1), bot_user_id)));
    assert(holds(s, m));
    lemma_holds(s, m);
    assert(!words::blank(s)) by {
        let n = parts[0].len() as int;
        assert(s[n] == '<');
    }
    let (x, y, z) = words::lemma_padded(s);
    words::law_trim_gives_what_is_padded(x, y, z);
    if words::bare(t) {
        words::law_trim_gives_what_is_padded(a, t, b);
    } else if t.len() == 0 {
        assert(words::padded(a, t, b) == a + b);
        assert forall|k: int| 0 <= k < (a + b).len() implies text::white_space(
            #[trigger] (a + b)[k],
        ) by {}
        words::law_trim_leaves_nothing_of_blanks(spaced(parts));
    }
}

/// The list names the user, or everyone.
pub open spec fn names(list: Seq<Seq<char>>, user: Seq<char>) -> bool {
    list.contains(user) || list.contains(seq!['*'])
}

/// A list names a user as contracts speak of it.
pub proof fn lemma_names(list: Seq<Seq<char>>, user: Seq<char>)
    ensures
        channel::lists(list, user) == names(list, user),
{
    reveal_strlit("*");
    assert("*"@ == seq!['*']);
    if names(list, user) {
        let i = choose|i: int| 0 <= i < list.len() && (list[i] == user || list[i] == seq!['*']);
        assert(list[i] == "*"@ || list[i] == user);
    }
    if channel::lists(list, user) {
        let i = choose|i: int|
            0 <= i < list.len() && (#[trigger] list[i] == "*"@ || list[i] == user);
        assert(list.contains(list[i]));
    }
}

/// The allowlist lets in whom it names, and everyone by `*`.
pub proof fn law_allowlist(list: Seq<Seq<char>>, user: Seq<char>)
    ensures
        channel::lists(list, user) == names(list, user),
{
    lemma_names(list, user);
}

/// The channel is one for groups: a public or a private one.
pub open spec fn for_groups(channel_id: Seq<char>) -> bool {
    channel_id.len() > 0 && (channel_id[0] == 'C' || channel_id[0] == 'G')
}

/// Under the rule that the bot has to be mentioned, a user has to mention it in
/// groups, unless the group policy names the user or everyone. Nothing else
/// plays a part. White space around the user's name does not count.
pub proof fn law_who_has_to_mention_the_bot(
    rules: Rules,
    channel_id: Seq<char>,
    a: Seq<char>,
    user: Seq<char>,
    b: Seq<char>,
)
    requires
        words::blank(a),
        words::bare(user),
        words::blank(b),
    ensures
        inbound::mention_needed(rules, channel_id, words::padded(a, user, b)) == (
        rules.mention_only && for_groups(channel_id) && !names(rules.group_senders, user)),
        inbound::mention_needed(rules, channel_id, a) == (rules.mention_only && for_groups(
            channel_id,
        )),
{
    words::law_trim_gives_what_is_padded(a, user, b);
    words::law_trim_leaves_nothing_of_blanks(a);
    lemma_names(rules.group_senders, user);
}

/// The timestamp is later than the last one that was heard in the channel, if
/// anything was.
pub open spec fn newer(
    cursors: Map<Seq<char>, Seq<char>>,
    channel_id: Seq<char>,
    ts: Seq<char>,
) -> bool {
    if cursors.contains_key(channel_id) {
        words::earlier(cursors[channel_id], ts)
    } else {
        ts.len() > 0
    }
}

/// Later than the last one, as contracts speak of it.
proof fn lemma_newer(
    cursors: Map<Seq<char>, Seq<char>>,
    channel_id: Seq<char>,
    ts: Seq<char>,
)
    ensures
        text::precedes(inbound::last_seen(cursors, channel_id), ts) == newer(
            cursors,
            channel_id,
            ts,
        ),
{
    words::law_texts_are_ordered(inbound::last_seen(cursors, channel_id), ts);
    if !cursors.contains_key(channel_id) {
        assert(inbound::last_seen(cursors, channel_id) == Seq::<char>::empty());
    }
}

/// The user may speak in the channel without a mention of the bot.
pub open spec fn free_to_speak(rules: Rules, channel_id: Seq<char>, user: Seq<char>) -> bool {
    !rules.mention_only || !for_groups(channel_id) || (words::bare(user) && names(
        rules.group_senders,
        user,
    ))
}

/// Whether a mention is needed, as contracts speak of it, of a user without
/// white space at the ends.
proof fn lemma_free(rules: Rules, channel_id: Seq<char>, user: Seq<char>)
    ensures
        free_to_speak(rules, channel_id, user) ==> !inbound::mention_needed(
            rules,
            channel_id,
            user,
        ),
        words::bare(user) ==> inbound::mention_needed(rules, channel_id, user) == !free_to_speak(
            rules,
            channel_id,
            user,
        ),
{
    if words::bare(user) {
        let none = Seq::<char>::empty();
        assert(words::padded(none, user, none) == user);
        law_who_has_to_mention_the_bot(rules, channel_id, none, user, none);
    }
}

/// The message has the given text.
pub open spec fn member_is(msg: Tree, key: Seq<char>, value: Seq<char>) -> bool {
    json::member(msg, key) == Some(Tree::Text(value))
}

/// The thread of a message with the given timestamp: the one that it names, else
/// its own.
pub open spec fn thread(msg: Tree, ts: Seq<char>) -> Seq<char> {
    match json::member(msg, seq!['t', 'h', 'r', 'e', 'a', 'd', '_', 't', 's']) {
        Some(Tree::Text(t)) => t,
        _ => ts,
    }
}

/// The name of the member for threads.
proof fn lemma_thread(msg: Tree, ts: Seq<char>)
    ensures
        ts.len() > 0 ==> inbound::thread_of(msg, ts) == Some(thread(msg, ts)),
{
    reveal_strlit("thread_ts");
    assert("thread_ts"@ == seq!['t', 'h', 'r', 'e', 'a', 'd', '_', 't', 's']);
}

/// A plain message by an allowed user who is not the bot, newer than the last
/// one of its channel, is heard, whatever else it holds: with its timestamp, its
/// user, its thread, and its text without the white space around it. Here no
/// mention is needed.
pub proof fn law_free_messages_are_heard(
    rules: Rules,
    bot_user_id: Seq<char>,
    cursors: Map<Seq<char>, Seq<char>>,
    channel_id: Seq<char>,
    user: Seq<char>,
    msg: Tree,
    ts: Seq<char>,
    a: Seq<char>,
    t: Seq<char>,
    b: Seq<char>,
)
    requires
        json::member(msg, "subtype"@) is None,
        user != bot_user_id,
        names(rules.allowed, user),
        member_is(msg, "ts"@, ts),
        newer(cursors, channel_id, ts),
        free_to_speak(rules, channel_id, user),
        member_is(msg, "text"@, words::padded(a, t, b)),
        words::blank(a),
        words::bare(t),
        words::blank(b),
    ensures
        inbound::heard(rules, bot_user_id, cursors, channel_id, user, msg) == Some(
            Heard { channel_id, ts, user, content: t, thread_ts: Some(thread(msg, ts)) },
        ),
{
    lemma_names(rules.allowed, user);
    lemma_newer(cursors, channel_id, ts);
    lemma_free(rules, channel_id, user);
    law_content_is_the_text(a, t, b, bot_user_id);
    lemma_thread(msg, ts);
    assert(ts.len() > 0) by {
        if cursors.contains_key(channel_id) {
            let k = choose|k: int| words::earlier_at(cursors[channel_id], ts, k);
            assert(k < ts.len());
        }
    }
}

/// Where a mention is needed, a message that mentions the bot is heard like any
/// other, with a space for each mention.
pub proof fn law_addressed_messages_are_heard(
    rules: Rules,
    bot_user_id: Seq<char>,
    cursors: Map<Seq<char>, Seq<char>>,
    channel_id: Seq<char>,
    user: Seq<char>,
    msg: Tree,
    ts: Seq<char>,
    parts: Seq<Seq<char>>,
    a: Seq<char>,
    t: Seq<char>,
    b: Seq<char>,
)
    requires
        json::member(msg, "subtype"@) is None,
        user != bot_user_id,
        names(rules.allowed, user),
        member_is(msg, "ts"@, ts),
        newer(cursors, channel_id, ts),
        words::bare(user),
        !free_to_speak(rules, channel_id, user),
        bot_user_id.len() > 0,
        parts.len() > 1,
        forall|i: int| 0 <= i < parts.len() ==> !(#[trigger] parts[i]).contains('<'),
        member_is(msg, "text"@, called_between(parts, bot_user_id)),
        spaced(parts) == words::padded(a, t, b),
        words::blank(a),
        words::bare(t),
        words::blank(b),
    ensures
        inbound::heard(rules, bot_user_id, cursors, channel_id, user, msg) == Some(
            Heard { channel_id, ts, user, content: t, thread_ts: Some(thread(msg, ts)) },
        ),
{
    lemma_names(rules.allowed, user);
    lemma_newer(cursors, channel_id, ts);
    lemma_free(rules, channel_id, user);
    law_addressed_messages_lose_their_mentions(parts, bot_user_id, a, t, b);
    lemma_thread(msg, ts);
    assert(ts.len() > 0) by {
        if cursors.contains_key(channel_id) {
            let k = choose|k: int| words::earlier_at(cursors[channel_id], ts, k);
            assert(k < ts.len());
        }
    }
}

/// A message is ignored if it has a subtype, if it is the bot's own, if its user
/// is not allowed, if it has no timestamp or one that is not newer than the last
/// one, if it has no text or a blank one, and if it had to mention the bot and
/// does not.
pub proof fn law_other_messages_are_ignored(
    rules: Rules,
    bot_user_id: Seq<char>,
    cursors: Map<Seq<char>, Seq<char>>,
    channel_id: Seq<char>,
    user: Seq<char>,
    msg: Tree,
)
    ensures
        ({
            let heard = inbound::heard(rules, bot_user_id, cursors, channel_id, user, msg);
            &&& json::member(msg, "subtype"@) is Some ==> heard is None
            &&& user == bot_user_id ==> heard is None
            &&& !names(rules.allowed, user) ==> heard is None
            &&& (forall|ts: Seq<char>| !member_is(msg, "ts"@, ts)) ==> heard is None
            &&& (exists|ts: Seq<char>|
                member_is(msg, "ts"@, ts) && !newer(cursors, channel_id, ts)) ==> heard is None
            &&& (forall|t: Seq<char>| !member_is(msg, "text"@, t)) ==> heard is None
            &&& (exists|t: Seq<char>| member_is(msg, "text"@, t) && words::blank(t))
                ==> heard is None
            &&& (words::bare(user) && !free_to_speak(rules, channel_id, user) && exists|
                t: Seq<char>,
            | member_is(msg, "text"@, t) && !calls(t, bot_user_id)) ==> heard is None
        }),
{
    let ts = inbound::text_or(msg, "ts"@, Seq::empty());
    let t = inbound::text_or(msg, "text"@, Seq::empty());
    lemma_names(rules.allowed, user);
    lemma_newer(cursors, channel_id, ts);
    lemma_free(rules, channel_id, user);
    if ts.len() == 0 {
        text::lemma_order_total(inbound::last_seen(cursors, channel_id), ts);
        words::law_texts_are_ordered(inbound::last_seen(cursors, channel_id), ts);
    }
    if json::member(msg, "ts"@) is Some && json::member(msg, "ts"@)->0 is Text {
        assert(member_is(msg, "ts"@, ts));
    } else {
        assert(ts.len() == 0);
    }
    if json::member(msg, "text"@) is Some && json::member(msg, "text"@)->0 is Text {
        assert(member_is(msg, "text"@, t));
    } else {
        assert(t.len() == 0);
        assert(words::blank(t));
    }
    if words::blank(t) {
        words::law_trim_leaves_nothing_of_blanks(t);
    }
    law_unaddressed_messages_say_nothing(t, bot_user_id);
}

/// The channel is listened to.
pub open spec fn listened(scope: Option<Seq<Seq<char>>>, channel_id: Seq<char>) -> bool {
    scope matches Some(ids) ==> ids.contains(channel_id)
}

/// The envelope brings the event.
pub open spec fn brings_event(envelope: Tree, event: Tree) -> bool {
    exists|payload: Tree|
        json::member(envelope, "payload"@) == Some(payload) && #[trigger] json::member(
            payload,
            "event"@,
        ) == Some(event)
}

/// In Socket Mode a message of a channel that is listened to is delivered like
/// any message that is heard, with its thread, and the cursor of its channel
/// moves on to it.
pub proof fn law_socket_messages_are_delivered(
    heed: Heed,
    cursors: Map<Seq<char>, Seq<char>>,
    envelope: Tree,
    event: Tree,
    channel_id: Seq<char>,
    user: Seq<char>,
    ts: Seq<char>,
    a: Seq<char>,
    t: Seq<char>,
    b: Seq<char>,
)
    requires
        member_is(envelope, "type"@, "events_api"@),
        brings_event(envelope, event),
        member_is(event, "type"@, "message"@),
        json::member(event, "subtype"@) is None,
        member_is(event, "channel"@, channel_id),
        channel_id.len() > 0,
        listened(heed.scope, channel_id),
        member_is(event, "user"@, user),
        user.len() > 0,
        user != heed.bot_user_id,
        names(heed.rules.allowed, user),
        member_is(event, "ts"@, ts),
        newer(cursors, channel_id, ts),
        free_to_speak(heed.rules, channel_id, user),
        member_is(event, "text"@, words::padded(a, t, b)),
        words::blank(a),
        words::bare(t),
        words::blank(b),
    ensures
        ({
            let m = Heard {
                channel_id,
                ts,
                user,
                content: t,
                thread_ts: Some(thread(event, ts)),
            };
            &&& sockets::heard_event(
                heed.rules,
                heed.bot_user_id,
                heed.scope,
                cursors,
                event,
            ) == Some(m)
            &&& sockets::step_on(
                heed.rules,
                heed.bot_user_id,
                heed.scope,
                cursors,
                envelope,
            ) == StepOn::Deliver(m)
            &&& sessions::handle(heed, cursors, envelope) == (
                (Standing {
                    phase: PhaseOn::Delivering,
                    cursors: cursors.insert(channel_id, ts),
                }),
                NextAction::Deliver(m),
            )
        }),
{
    lemma_kinds();
    law_free_messages_are_heard(
        heed.rules,
        heed.bot_user_id,
        cursors,
        channel_id,
        user,
        event,
        ts,
        a,
        t,
        b,
    );
}

/// The same of a message that has to mention the bot and does.
pub proof fn law_addressed_socket_messages_are_delivered(
    heed: Heed,
    cursors: Map<Seq<char>, Seq<char>>,
    envelope: Tree,
    event: Tree,
    channel_id: Seq<char>,
    user: Seq<char>,
    m: Heard,
)
    requires
        member_is(envelope, "type"@, "events_api"@),
        brings_event(envelope, event),
        member_is(event, "type"@, "message"@),
        member_is(event, "channel"@, channel_id),
        channel_id.len() > 0,
        listened(heed.scope, channel_id),
        member_is(event, "user"@, user),
        user.len() > 0,
        inbound::heard(heed.rules, heed.bot_user_id, cursors, channel_id, user, event) == Some(m),
    ensures
        sockets::step_on(
            heed.rules,
            heed.bot_user_id,
            heed.scope,
            cursors,
            envelope,
        ) == StepOn::Deliver(m),
        m.channel_id == channel_id && m.user == user && member_is(event, "ts"@, m.ts),
{
    lemma_kinds();
    law_other_messages_are_ignored(
        heed.rules,
        heed.bot_user_id,
        cursors,
        channel_id,
        user,
        event,
    );
}

/// The kinds of envelopes differ.
proof fn lemma_kinds()
    ensures
        "disconnect"@ != "events_api"@,
{
    reveal_strlit("disconnect");
    reveal_strlit("events_api");
    assert("disconnect"@[0] != "events_api"@[0]);
}

/// In Socket Mode, an envelope that asks to disconnect leads to another
/// connection; one of another kind, one without an event, an event that is no
/// message, and a message without a channel, of a channel that is not listened
/// to, or without a user are passed over. No cursor moves.
pub proof fn law_other_envelopes_are_passed_over(
    heed: Heed,
    cursors: Map<Seq<char>, Seq<char>>,
    envelope: Tree,
)
    ensures
        ({
            let step = sockets::step_on(
                heed.rules,
                heed.bot_user_id,
                heed.scope,
                cursors,
                envelope,
            );
            &&& member_is(envelope, "type"@, "disconnect"@) ==> step is Reconnect
            &&& !member_is(envelope, "type"@, "disconnect"@) ==> !(step is Reconnect)
            &&& !member_is(envelope, "type"@, "events_api"@) ==> !(step is Deliver)
            &&& (forall|event: Tree| !#[trigger] brings_event(envelope, event)) ==> !(
            step is Deliver)
            &&& forall|event: Tree| #[trigger]
                brings_event(envelope, event) && (!member_is(event, "type"@, "message"@) || (forall|
                    c: Seq<char>,
                |
                    !(member_is(event, "channel"@, c) && c.len() > 0 && listened(
                        heed.scope,
                        c,
                    ))) || (forall|u: Seq<char>| !(member_is(event, "user"@, u) && u.len() > 0)))
                    ==> !(step is Deliver)
            &&& !(step is Deliver) ==> sessions::handle(heed, cursors, envelope).0.cursors
                == cursors
        }),
{
    let step = sockets::step_on(heed.rules, heed.bot_user_id, heed.scope, cursors, envelope);
    lemma_kinds();
    if step is Deliver {
        let event = sockets::event_of(envelope)->0;
        let payload = json::member(envelope, "payload"@)->0;
        assert(json::member(payload, "event"@) == Some(event));
        assert(brings_event(envelope, event));
        let c = inbound::text_or(event, "channel"@, Seq::empty());
        let u = inbound::text_or(event, "user"@, Seq::empty());
        assert(member_is(event, "channel"@, c));
        assert(member_is(event, "user"@, u));
        assert(listened(heed.scope, c));
    }
}

/// In Socket Mode a user who is not allowed and who wrote a message in a channel
/// that is listened to is noticed, and nobody else is.
pub proof fn law_refused_users_are_noticed(
    heed: Heed,
    cursors: Map<Seq<char>, Seq<char>>,
    envelope: Tree,
    event: Tree,
    user: Seq<char>,
)
    requires
        member_is(envelope, "type"@, "events_api"@),
        brings_event(envelope, event),
        member_is(event, "user"@, user),
    ensures
        ({
            let notice = sockets::refused_sender(
                heed.rules,
                heed.bot_user_id,
                heed.scope,
                envelope,
            );
            let wanted = member_is(event, "type"@, "message"@) && (exists|c: Seq<char>|
                member_is(event, "channel"@, c) && c.len() > 0 && listened(heed.scope, c))
                && user.len() > 0 && json::member(event, "subtype"@) is None && user
                != heed.bot_user_id && !names(heed.rules.allowed, user);
            &&& wanted ==> notice == Some(user)
            &&& !wanted ==> notice is None
            &&& wanted ==> sessions::handle(heed, cursors, envelope).1 == NextAction::Read(
                NoticeOn::Refused(user),
            )
        }),
{
    lemma_kinds();
    lemma_names(heed.rules.allowed, user);
    let payload = choose|payload: Tree|
        json::member(envelope, "payload"@) == Some(payload) && #[trigger] json::member(
            payload,
            "event"@,
        ) == Some(event);
    assert(sockets::event_of(envelope) == Some(event));
    let c = inbound::text_or(event, "channel"@, Seq::empty());
    if json::member(event, "channel"@) is Some && json::member(event, "channel"@)->0 is Text {
        assert(member_is(event, "channel"@, c));
        assert(listened(heed.scope, c) == sockets::in_scope(heed.scope, c));
    } else {
        assert(c.len() == 0);
    }
}

/// A page lists its messages newest first; they are taken oldest first.
pub proof fn law_pages_are_turned_round(payload: Tree, i: int)
    ensures
        json::member(payload, "messages"@) matches Some(Tree::Array(msgs)) ==> {
            &&& polling::page_messages(payload).len() == msgs.len()
            &&& 0 <= i < msgs.len() ==> polling::page_messages(payload)[i] == msgs[msgs.len() - 1
                - i]
        },
        !(json::member(payload, "messages"@) matches Some(Tree::Array(_)))
            ==> polling::page_messages(payload).len() == 0,
{
}

/// The user of a message in a page.
pub open spec fn writer(msg: Tree) -> Seq<char> {
    match json::member(msg, "user"@) {
        Some(Tree::Text(u)) => u,
        _ => "unknown"@,
    }
}

/// The timestamp of a message, or nothing where it has none.
pub open spec fn stamp(msg: Tree) -> Seq<char> {
    match json::member(msg, "ts"@) {
        Some(Tree::Text(t)) => t,
        _ => Seq::empty(),
    }
}

/// What a message of a page says, by an allowed user who is not the bot and need
/// not mention it.
pub open spec fn says(
    rules: Rules,
    bot_user_id: Seq<char>,
    channel_id: Seq<char>,
    msg: Tree,
    m: Heard,
) -> bool {
    &&& json::member(msg, "subtype"@) is None
    &&& writer(msg) != bot_user_id
    &&& names(rules.allowed, writer(msg))
    &&& free_to_speak(rules, channel_id, writer(msg))
    &&& member_is(msg, "ts"@, m.ts)
    &&& words::bare(m.content)
    &&& exists|a: Seq<char>, b: Seq<char>|
        words::blank(a) && words::blank(b) && member_is(
            msg,
            "text"@,
            #[trigger] words::padded(a, m.content, b),
        )
    &&& m.channel_id == channel_id
    &&& m.user == writer(msg)
    &&& m.thread_ts == Some(thread(msg, m.ts))
}

/// A message of a page is heard if it says something and is newer than the last.
proof fn lemma_polled(
    rules: Rules,
    bot_user_id: Seq<char>,
    cursors: Map<Seq<char>, Seq<char>>,
    channel_id: Seq<char>,
    msg: Tree,
    m: Heard,
)
    requires
        says(rules, bot_user_id, channel_id, msg, m),
        newer(cursors, channel_id, m.ts),
    ensures
        polling::heard_polled(rules, bot_user_id, cursors, channel_id, msg) == Some(m),
{
    let (a, b) = choose|a: Seq<char>, b: Seq<char>|
        words::blank(a) && words::blank(b) && member_is(
            msg,
            "text"@,
            #[trigger] words::padded(a, m.content, b),
        );
    law_free_messages_are_heard(
        rules,
        bot_user_id,
        cursors,
        channel_id,
        writer(msg),
        msg,
        m.ts,
        a,
        m.content,
        b,
    );
}

/// A message of a page is heard like any message of its user; one without a user
/// counts as one of the user `unknown`.
pub proof fn law_polled_messages_are_heard_like_any(
    rules: Rules,
    bot_user_id: Seq<char>,
    cursors: Map<Seq<char>, Seq<char>>,
    channel_id: Seq<char>,
    msg: Tree,
)
    ensures
        polling::heard_polled(rules, bot_user_id, cursors, channel_id, msg) == inbound::heard(
            rules,
            bot_user_id,
            cursors,
            channel_id,
            writer(msg),
            msg,
        ),
{
}

/// The newest message of a page is heard after the others, if it is newer than
/// they are, and the cursor moves on to it.
pub proof fn law_pages_are_heard_one_by_one(
    rules: Rules,
    bot_user_id: Seq<char>,
    cursors: Map<Seq<char>, Seq<char>>,
    channel_id: Seq<char>,
    msgs: Seq<Tree>,
    msg: Tree,
)
    ensures
        ({
            let (before, then) = polling::heard_all(rules, bot_user_id, cursors, channel_id, msgs);
            let (all, after) = polling::heard_all(
                rules,
                bot_user_id,
                cursors,
                channel_id,
                msgs.push(msg),
            );
            match inbound::heard(rules, bot_user_id, then, channel_id, writer(msg), msg) {
                Some(m) => all == before.push(m) && after == then.insert(channel_id, m.ts),
                None => all == before && after == then,
            }
        }),
        polling::heard_all(rules, bot_user_id, cursors, channel_id, Seq::empty()) == (
            Seq::<Heard>::empty(),
            cursors,
        ),
{
    assert(msgs.push(msg).drop_last() == msgs);
    law_polled_messages_are_heard_like_any(
        rules,
        bot_user_id,
        polling::heard_all(rules, bot_user_id, cursors, channel_id, msgs).1,
        channel_id,
        msg,
    );
}

/// Each message of a page that says something, and is newer than the last one
/// heard before and than those before it in the page, is heard; nothing else
/// plays a part.
pub proof fn law_pages_are_heard_completely(
    rules: Rules,
    bot_user_id: Seq<char>,
    cursors: Map<Seq<char>, Seq<char>>,
    channel_id: Seq<char>,
    msgs: Seq<Tree>,
    j: int,
    m: Heard,
)
    requires
        0 <= j < msgs.len(),
        says(rules, bot_user_id, channel_id, msgs[j], m),
        newer(cursors, channel_id, m.ts),
        forall|i: int|
            0 <= i < j ==> words::earlier(stamp(#[trigger] msgs[i]), m.ts),
    ensures
        polling::heard_all(rules, bot_user_id, cursors, channel_id, msgs).0.contains(m),
    decreases msgs.len(),
{
    let front = msgs.drop_last();
    let (before, then) = polling::heard_all(rules, bot_user_id, cursors, channel_id, front);
    if j < msgs.len() - 1 {
        assert(front[j] == msgs[j]);
        assert forall|i: int| 0 <= i < j implies words::earlier(stamp(#[trigger] front[i]), m.ts) by {
            assert(front[i] == msgs[i]);
        }
        law_pages_are_heard_completely(rules, bot_user_id, cursors, channel_id, front, j, m);
        let i = choose|i: int| 0 <= i < before.len() && before[i] == m;
        let all = polling::heard_all(rules, bot_user_id, cursors, channel_id, msgs).0;
        assert(all[i] == m);
    } else {
        assert forall|i: int| 0 <= i < front.len() implies words::earlier(stamp(#[trigger] front[i]), m.ts) by {
            assert(front[i] == msgs[i]);
        }
        lemma_cursor_below(rules, bot_user_id, cursors, channel_id, front, m.ts);
        lemma_polled(rules, bot_user_id, then, channel_id, msgs[j], m);
        let all = polling::heard_all(rules, bot_user_id, cursors, channel_id, msgs).0;
        assert(all == before.push(m));
        assert(all[before.len() as int] == m);
    }
}

/// After messages that are all older than a timestamp, the cursor is too.
proof fn lemma_cursor_below(
    rules: Rules,
    bot_user_id: Seq<char>,
    cursors: Map<Seq<char>, Seq<char>>,
    channel_id: Seq<char>,
    msgs: Seq<Tree>,
    ts: Seq<char>,
)
    requires
        newer(cursors, channel_id, ts),
        forall|i: int|
            0 <= i < msgs.len() ==> words::earlier(stamp(#[trigger] msgs[i]), ts),
    ensures
        newer(
            polling::heard_all(rules, bot_user_id, cursors, channel_id, msgs).1,
            channel_id,
            ts,
        ),
    decreases msgs.len(),
{
    if msgs.len() > 0 {
        let front = msgs.drop_last();
        let n = msgs.len() - 1;
        assert forall|i: int| 0 <= i < front.len() implies words::earlier(stamp(#[trigger] front[i]), ts) by {
            assert(front[i] == msgs[i]);
        }
        lemma_cursor_below(rules, bot_user_id, cursors, channel_id, front, ts);
        let then = polling::heard_all(rules, bot_user_id, cursors, channel_id, front).1;
        if let Some(m) = polling::heard_polled(
            rules,
            bot_user_id,
            then,
            channel_id,
            msgs.last(),
        ) {
            assert(m.ts == stamp(msgs[n]));
            assert(words::earlier(stamp(msgs[n]), ts));
        }
    }
}

/// What is heard of a page are messages of it, each as it says, in the case that
/// nobody has to mention the bot.
pub proof fn law_only_messages_of_the_page_are_heard(
    rules: Rules,
    bot_user_id: Seq<char>,
    cursors: Map<Seq<char>, Seq<char>>,
    channel_id: Seq<char>,
    msgs: Seq<Tree>,
    i: int,
)
    requires
        !rules.mention_only || !for_groups(channel_id),
        0 <= i < polling::heard_all(rules, bot_user_id, cursors, channel_id, msgs).0.len(),
    ensures
        exists|j: int|
            0 <= j < msgs.len() && says(
                rules,
                bot_user_id,
                channel_id,
                #[trigger] msgs[j],
                polling::heard_all(rules, bot_user_id, cursors, channel_id, msgs).0[i],
            ),
    decreases msgs.len(),
{
    if msgs.len() > 0 {
        let n = msgs.len() - 1;
        let front = msgs.drop_last();
        let all = polling::heard_all(rules, bot_user_id, cursors, channel_id, msgs).0;
        let (before, then) = polling::heard_all(rules, bot_user_id, cursors, channel_id, front);
        if i < before.len() {
            law_only_messages_of_the_page_are_heard(
                rules,
                bot_user_id,
                cursors,
                channel_id,
                front,
                i,
            );
            let j = choose|j: int|
                0 <= j < front.len() && says(
                    rules,
                    bot_user_id,
                    channel_id,
                    #[trigger] front[j],
                    before[i],
                );
            assert(all[i] == before[i]);
            assert(msgs[j] == front[j]);
        } else {
            let m = all[i];
            let msg = msgs[n];
            assert(polling::heard_polled(rules, bot_user_id, then, channel_id, msg) == Some(m));
            lemma_says(rules, bot_user_id, then, channel_id, msg, m);
            assert(says(rules, bot_user_id, channel_id, msgs[n], all[i]));
        }
    }
}

/// A message that is heard says what is heard.
proof fn lemma_says(
    rules: Rules,
    bot_user_id: Seq<char>,
    cursors: Map<Seq<char>, Seq<char>>,
    channel_id: Seq<char>,
    msg: Tree,
    m: Heard,
)
    requires
        !rules.mention_only || !for_groups(channel_id),
        polling::heard_polled(rules, bot_user_id, cursors, channel_id, msg) == Some(m),
    ensures
        says(rules, bot_user_id, channel_id, msg, m),
{
    let user = writer(msg);
    law_other_messages_are_ignored(rules, bot_user_id, cursors, channel_id, user, msg);
    lemma_free(rules, channel_id, user);
    let s = inbound::text_or(msg, "text"@, Seq::empty());
    assert(member_is(msg, "text"@, s));
    assert(!words::blank(s));
    let (a, t, b) = words::lemma_padded(s);
    law_content_is_the_text(a, t, b, bot_user_id);
    assert(m.content == t);
    assert(member_is(msg, "text"@, words::padded(a, m.content, b)));
    let ts = inbound::text_or(msg, "ts"@, Seq::empty());
    assert(member_is(msg, "ts"@, ts));
    lemma_newer(cursors, channel_id, ts);
    if ts.len() == 0 {
        words::law_texts_are_ordered(inbound::last_seen(cursors, channel_id), ts);
    }
    lemma_thread(msg, ts);
}

} // verus!
