//! What is configured, and what is remembered.

use vstd::prelude::*;
use crate::channel;
use crate::drafts;
use crate::polling;
use crate::promises::words;
use crate::retry;
use crate::sockets;
use crate::text;
use crate::users;
use crate::users::Lookup;

verus! {

/// The limits: how long a message is, how long a name is known, how often
/// channels are polled and discovered, and how long is waited.
pub proof fn law_limits()
    ensures
        channel::SLACK_MAX_MESSAGE_LENGTH == 40_000,
        channel::cache_ttl() == 6 * 60 * 60 * 1_000_000_000,
        polling::POLL_INTERVAL_SECS == 3,
        polling::DISCOVERY_INTERVAL_SECS == 60,
        sockets::RECONNECT_DELAY_SECS == 3,
        retry::SLACK_HISTORY_MAX_RETRIES == 3,
        retry::SLACK_HISTORY_DEFAULT_RETRY_AFTER_SECS == 1,
        retry::SLACK_HISTORY_MAX_BACKOFF_SECS == 120,
        retry::SLACK_HISTORY_MAX_JITTER_MS == 500,
{
}

/// A configured text counts without the white space around it, and not at all if
/// it is blank.
pub proof fn law_configured_text(a: Seq<char>, t: Seq<char>, b: Seq<char>)
    requires
        words::blank(a),
        words::bare(t),
        words::blank(b),
    ensures
        channel::nonblank(words::padded(a, t, b)) == Some(t),
        channel::nonblank(a) is None,
{
    words::law_trim_gives_what_is_padded(a, t, b);
    words::law_trim_leaves_nothing_of_blanks(a);
}

/// The configured value names the channel: it is the channel with white space
/// around it, and the channel is not `*`.
pub open spec fn means(value: Seq<char>, id: Seq<char>) -> bool {
    &&& words::bare(id)
    &&& id != seq!['*']
    &&& exists|a: Seq<char>, b: Seq<char>|
        words::blank(a) && words::blank(b) && value == #[trigger] words::padded(a, id, b)
}

/// The channel that a configured value names is what stands in it.
pub proof fn law_configured_channel(value: Seq<char>, id: Seq<char>)
    ensures
        (channel::named_channel(Some(value)) == Some(id)) == means(value, id),
        channel::named_channel(None) is None,
{
    reveal_strlit("*");
    assert("*"@ == seq!['*']);
    if means(value, id) {
        let (a, b) = choose|a: Seq<char>, b: Seq<char>|
            words::blank(a) && words::blank(b) && value == #[trigger] words::padded(a, id, b);
        words::law_trim_gives_what_is_padded(a, id, b);
    }
    if channel::named_channel(Some(value)) == Some(id) {
        if words::blank(value) {
            words::law_trim_leaves_nothing_of_blanks(value);
        }
        let (a, t, b) = words::lemma_padded(value);
        words::law_trim_gives_what_is_padded(a, t, b);
        assert(value == words::padded(a, id, b));
    }
}

/// A channel is in the scope if and only if an entry of the list names it, or no
/// entry names any and the single setting does. Without a scope neither names
/// one.
pub proof fn law_scope_holds_what_is_named(
    list: Seq<Seq<char>>,
    single: Option<Seq<char>>,
    id: Seq<char>,
)
    ensures
        ({
            let listed = exists|i: int| 0 <= i < list.len() && means(#[trigger] list[i], id);
            let any = exists|i: int, other: Seq<char>|
                0 <= i < list.len() && #[trigger] means(list[i], other);
            let alone = single matches Some(value) && means(value, id);
            match channel::scope(list, single) {
                Some(ids) => ids.contains(id) == (listed || (!any && alone)),
                None => !listed && !any && !alone,
            }
        }),
{
    lemma_named(list, id);
    let named = channel::named_channels(list);
    let any = exists|i: int, other: Seq<char>|
        0 <= i < list.len() && #[trigger] means(list[i], other);
    if any {
        let (i, other) = choose|i: int, other: Seq<char>|
            0 <= i < list.len() && #[trigger] means(list[i], other);
        lemma_named(list, other);
        assert(means(list[i], other));
        assert(named.contains(other));
    }
    if named.len() > 0 {
        lemma_named(list, named[0]);
        assert(named.contains(named[0]));
        let i = choose|i: int| 0 <= i < list.len() && means(#[trigger] list[i], named[0]);
        assert(means(list[i], named[0]));
    }
    if let Some(value) = single {
        law_configured_channel(value, id);
        if let Some(own) = channel::named_channel(single) {
            law_configured_channel(value, own);
            assert(seq![own][0] == own);
            assert(seq![own].contains(id) == (own == id)) by {
                if seq![own].contains(id) {
                    let k = choose|k: int| 0 <= k < seq![own].len() && seq![own][k] == id;
                }
            }
        }
    }
}

/// The list names a channel if one of its entries does.
proof fn lemma_named(list: Seq<Seq<char>>, id: Seq<char>)
    ensures
        channel::named_channels(list).contains(id) == exists|i: int|
            0 <= i < list.len() && means(#[trigger] list[i], id),
    decreases list.len(),
{
    if list.len() > 0 {
        let n = list.len() - 1;
        let front = list.drop_last();
        let before = channel::named_channels(front);
        let all = channel::named_channels(list);
        lemma_named(front, id);
        law_configured_channel(list[n], id);
        if before.contains(id) {
            let i = choose|i: int| 0 <= i < front.len() && means(#[trigger] front[i], id);
            assert(list[i] == front[i]);
            let k = choose|k: int| 0 <= k < before.len() && before[k] == id;
            assert(all[k] == id);
        }
        if means(list[n], id) {
            if !before.contains(id) {
                assert(all == before.push(id));
                assert(all[before.len() as int] == id);
            }
        }
        if all.contains(id) {
            let k = choose|k: int| 0 <= k < all.len() && all[k] == id;
            if k < before.len() {
                assert(before[k] == id);
            } else {
                assert(means(list[n], id));
            }
        }
        if exists|i: int| 0 <= i < list.len() && means(#[trigger] list[i], id) {
            let i = choose|i: int| 0 <= i < list.len() && means(#[trigger] list[i], id);
            if i < n {
                assert(front[i] == list[i]);
            }
        }
    }
}

/// The scope keeps the order of the list: an entry that is added at its end
/// comes last, or changes nothing where it names no new channel.
pub proof fn law_scope_keeps_the_order(list: Seq<Seq<char>>, value: Seq<char>, id: Seq<char>)
    ensures
        ({
            let before = channel::named_channels(list);
            let all = channel::named_channels(list.push(value));
            &&& means(value, id) && !before.contains(id) ==> all == before.push(id)
            &&& means(value, id) && before.contains(id) ==> all == before
            &&& (forall|other: Seq<char>| !means(value, other)) ==> all == before
        }),
        channel::scope(list, None) matches Some(ids) ==> ids == channel::named_channels(list),
{
    assert(list.push(value).drop_last() == list);
    assert(list.push(value).last() == value);
    law_configured_channel(value, id);
    if let Some(other) = channel::named_channel(Some(value)) {
        law_configured_channel(value, other);
    }
}

/// The senders that a group policy names are those that stand in its entries.
pub proof fn law_group_senders(list: Seq<Seq<char>>, id: Seq<char>)
    ensures
        channel::nonblank_entries(list).contains(id) == exists|i: int|
            0 <= i < list.len() && #[trigger] stands_in(list[i], id),
{
    let keep = |e: Seq<char>| channel::nonblank(e) is Some;
    let kept = list.filter(keep);
    let all = channel::nonblank_entries(list);
    if all.contains(id) {
        let k = choose|k: int| 0 <= k < all.len() && all[k] == id;
        assert(kept.contains(kept[k]));
        list.lemma_filter_contains_rev(keep, kept[k]);
        let i = choose|i: int| 0 <= i < list.len() && list[i] == kept[k];
        list.lemma_filter_pred(keep, k);
        lemma_stands(list[i], id);
        assert(stands_in(list[i], id));
    }
    if exists|i: int| 0 <= i < list.len() && #[trigger] stands_in(list[i], id) {
        let i = choose|i: int| 0 <= i < list.len() && #[trigger] stands_in(list[i], id);
        lemma_stands(list[i], id);
        list.lemma_filter_contains(keep, i);
        let k = choose|k: int| 0 <= k < kept.len() && kept[k] == list[i];
        assert(all[k] == id);
    }
}

/// The value is the text with white space around it.
pub open spec fn stands_in(value: Seq<char>, t: Seq<char>) -> bool {
    words::bare(t) && exists|a: Seq<char>, b: Seq<char>|
        words::blank(a) && words::blank(b) && value == #[trigger] words::padded(a, t, b)
}

proof fn lemma_stands(value: Seq<char>, t: Seq<char>)
    ensures
        stands_in(value, t) == (channel::nonblank(value) == Some(t)),
{
    if stands_in(value, t) {
        let (a, b) = choose|a: Seq<char>, b: Seq<char>|
            words::blank(a) && words::blank(b) && value == #[trigger] words::padded(a, t, b);
        words::law_trim_gives_what_is_padded(a, t, b);
    }
    if channel::nonblank(value) == Some(t) {
        if words::blank(value) {
            words::law_trim_leaves_nothing_of_blanks(value);
        }
        let (a, x, b) = words::lemma_padded(value);
        words::law_trim_gives_what_is_padded(a, x, b);
        assert(value == words::padded(a, t, b));
    }
}

/// A name is known for six hours after it was fetched, and then it is fetched
/// again; of nobody else anything changes. A blank user has a blank name.
pub proof fn law_names_are_known_for_six_hours(
    cache: Map<Seq<char>, (Seq<char>, int)>,
    a: Seq<char>,
    user: Seq<char>,
    b: Seq<char>,
    name: Seq<char>,
    fetched_at: int,
    later: int,
)
    requires
        words::blank(a),
        words::bare(user),
        words::blank(b),
    ensures
        ({
            let after = cache.insert(user, (name, fetched_at + channel::cache_ttl()));
            let asked = users::lookup(after, words::padded(a, user, b), later);
            &&& later - fetched_at <= 21_600 * 1_000_000_000 ==> asked == Lookup::Known(name)
            &&& later - fetched_at > 21_600 * 1_000_000_000 ==> asked == Lookup::Fetch(user)
            &&& !cache.contains_key(user) ==> users::lookup(
                cache,
                words::padded(a, user, b),
                later,
            ) == Lookup::Fetch(user)
            &&& users::lookup(cache, a, later) == Lookup::Known(Seq::empty())
            &&& channel::cached_name(after, user, later) == if later - fetched_at <= 21_600
                * 1_000_000_000 {
                Some(name)
            } else {
                None
            }
        }),
{
    words::law_trim_gives_what_is_padded(a, user, b);
    words::law_trim_leaves_nothing_of_blanks(a);
    assert(text::trim(a) == Seq::<char>::empty());
}

/// An edit of a draft waits until the interval since the last one for the same
/// recipient is over, in whole milliseconds.
pub proof fn law_edits_wait(
    edits: Map<Seq<char>, int>,
    recipient: Seq<char>,
    interval_ms: u64,
    now: int,
)
    ensures
        !edits.contains_key(recipient) ==> !drafts::too_soon(
            edits,
            recipient,
            interval_ms as int,
            now,
        ),
        edits.contains_key(recipient) && edits[recipient] <= now ==> drafts::too_soon(
            edits,
            recipient,
            interval_ms as int,
            now,
        ) == (now - edits[recipient] < interval_ms * 1_000_000),
{
}

} // verus!
