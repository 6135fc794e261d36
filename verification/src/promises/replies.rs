//! What is read from the replies of the Web API.

use vstd::prelude::*;
use crate::api;
use crate::api::Failure;
use crate::channel;
use crate::directory;
use crate::drafts;
use crate::json;
use crate::json::Tree;
use crate::promises::hearing;
use crate::promises::words;
use crate::users;

verus! {

/// The reply is a success: its status is one of the two hundreds, and its payload
/// does not say `false` under `ok`.
pub open spec fn went_well(status: u16, payload: Tree) -> bool {
    200 <= status <= 299 && json::member(payload, "ok"@) != Some(Tree::Bool(false))
}

/// A reply fails by its status first, and else by what its payload says, with
/// the reason that it names or `unknown`.
pub proof fn law_replies_are_judged(status: u16, payload: Tree)
    ensures
        (api::reply_failure(status, payload) is None) == went_well(status, payload),
        !(200 <= status <= 299) ==> api::reply_failure(status, payload) == Some(
            Failure::Status(status),
        ),
        200 <= status <= 299 && !went_well(status, payload) ==> api::reply_failure(status, payload)
            == Some(
            Failure::Refused(
                match json::member(payload, "error"@) {
                    Some(Tree::Text(reason)) => reason,
                    _ => "unknown"@,
                },
            ),
        ),
        drafts::updated(status, payload) == went_well(status, payload),
{
}

/// The address of the websocket is what a successful reply gives under `url`.
pub proof fn law_socket_address(status: u16, payload: Tree, url: Seq<char>)
    ensures
        (api::socket_url(status, payload) == Ok::<Seq<char>, Failure>(url)) == (went_well(
            status,
            payload,
        ) && hearing::member_is(payload, "url"@, url)),
        went_well(status, payload) && (forall|u: Seq<char>|
            !hearing::member_is(payload, "url"@, u)) ==> api::socket_url(status, payload) == Err::<
            Seq<char>,
            Failure,
        >(Failure::NoUrl),
        !went_well(status, payload) ==> api::socket_url(status, payload) == Err::<
            Seq<char>,
            Failure,
        >(api::reply_failure(status, payload)->0),
{
    law_replies_are_judged(status, payload);
    if json::member(payload, "url"@) is Some && json::member(payload, "url"@)->0 is Text {
        let u = json::text_member(payload, "url"@)->0;
        assert(hearing::member_is(payload, "url"@, u));
    }
}

/// A posted draft is known by the timestamp that a successful reply gives.
pub proof fn law_posted_draft(status: u16, payload: Tree, ts: Seq<char>)
    ensures
        went_well(status, payload) && hearing::member_is(payload, "ts"@, ts)
            ==> drafts::posted_draft(status, payload) == Ok::<Option<Seq<char>>, Failure>(Some(ts)),
        went_well(status, payload) && (forall|t: Seq<char>|
            !hearing::member_is(payload, "ts"@, t)) ==> drafts::posted_draft(status, payload)
            == Ok::<Option<Seq<char>>, Failure>(None),
        !went_well(status, payload) ==> drafts::posted_draft(status, payload) is Err,
{
    law_replies_are_judged(status, payload);
    if json::member(payload, "ts"@) is Some && json::member(payload, "ts"@)->0 is Text {
        let t = json::text_member(payload, "ts"@)->0;
        assert(hearing::member_is(payload, "ts"@, t));
    }
}

/// The entry of the list stands for a channel that the bot can listen to: it has
/// the identifier, it is not archived, and the bot is not left out of it.
pub open spec fn offers(entry: Tree, id: Seq<char>) -> bool {
    &&& hearing::member_is(entry, "id"@, id)
    &&& json::member(entry, "is_archived"@) != Some(Tree::Bool(true))
    &&& json::member(entry, "is_member"@) != Some(Tree::Bool(false))
}

/// Of an entry the channel is found if and only if it offers it.
proof fn lemma_offers(entry: Tree, id: Seq<char>)
    ensures
        (directory::usable_channel(entry) == Some(id)) == offers(entry, id),
{
}

/// The channels of a page are those that its entries offer, whatever their
/// identifiers and the other members of the entries are.
pub proof fn law_offered_channels_are_found(payload: Tree, entries: Seq<Tree>, id: Seq<char>)
    ensures
        json::member(payload, "channels"@) == Some(Tree::Array(entries))
            ==> directory::listed_channels(payload).contains(id) == exists|i: int|
            0 <= i < entries.len() && offers(#[trigger] entries[i], id),
        !(json::member(payload, "channels"@) matches Some(Tree::Array(_)))
            ==> directory::listed_channels(payload).len() == 0,
{
    if json::member(payload, "channels"@) == Some(Tree::Array(entries)) {
        lemma_listed(entries, id);
    }
}

proof fn lemma_listed(entries: Seq<Tree>, id: Seq<char>)
    ensures
        entries.filter_map(|e: Tree| directory::usable_channel(e)).contains(id) == exists|i: int|
            0 <= i < entries.len() && offers(#[trigger] entries[i], id),
    decreases entries.len(),
{
    reveal(Seq::filter_map);
    let f = |e: Tree| directory::usable_channel(e);
    if entries.len() > 0 {
        let n = entries.len() - 1;
        let front = entries.drop_last();
        lemma_listed(front, id);
        lemma_offers(entries[n], id);
        let before = front.filter_map(f);
        let all = entries.filter_map(f);
        assert(entries.last() == entries[n]);
        if before.contains(id) {
            let i = choose|i: int| 0 <= i < front.len() && offers(#[trigger] front[i], id);
            assert(entries[i] == front[i]);
            let k = choose|k: int| 0 <= k < before.len() && before[k] == id;
            assert(all[k] == id);
        }
        if offers(entries[n], id) {
            assert(all == before.push(id));
            assert(all[before.len() as int] == id);
        }
        if all.contains(id) && !before.contains(id) {
            let k = choose|k: int| 0 <= k < all.len() && all[k] == id;
            if k < before.len() {
                assert(before[k] == id);
            }
            assert(offers(entries[n], id));
        }
        if exists|i: int| 0 <= i < entries.len() && offers(#[trigger] entries[i], id) {
            let i = choose|i: int| 0 <= i < entries.len() && offers(#[trigger] entries[i], id);
            if i < n {
                assert(front[i] == entries[i]);
            }
        }
    }
}

/// The walk through the list goes on at the cursor that a page names, if it names
/// one that is not blank.
pub proof fn law_the_walk_goes_on_at_the_cursor(
    payload: Tree,
    meta: Tree,
    a: Seq<char>,
    cursor: Seq<char>,
    b: Seq<char>,
)
    requires
        words::blank(a),
        words::bare(cursor),
        words::blank(b),
        json::member(payload, "response_metadata"@) == Some(meta),
    ensures
        hearing::member_is(meta, "next_cursor"@, words::padded(a, cursor, b))
            ==> directory::next_cursor(payload) == Some(cursor),
        hearing::member_is(meta, "next_cursor"@, a) ==> directory::next_cursor(payload) is None,
        (forall|c: Seq<char>| !hearing::member_is(meta, "next_cursor"@, c))
            ==> directory::next_cursor(payload) is None,
{
    words::law_trim_gives_what_is_padded(a, cursor, b);
    words::law_trim_leaves_nothing_of_blanks(a);
    if json::member(meta, "next_cursor"@) is Some && json::member(meta, "next_cursor"@)->0 is Text {
        let c = json::text_member(meta, "next_cursor"@)->0;
        assert(hearing::member_is(meta, "next_cursor"@, c));
    }
}

/// The list is asked for with all kinds of channels, without archived ones, and
/// from the cursor on.
pub proof fn law_the_list_is_asked_for_completely(cursor: Seq<char>)
    ensures
        directory::page_query(None).len() == 3,
        directory::page_query(None).contains(("exclude_archived"@, "true"@)),
        directory::page_query(None).contains(("limit"@, "200"@)),
        directory::page_query(None).contains(
            ("types"@, "public_channel,private_channel,mpim,im"@),
        ),
        directory::page_query(Some(cursor)) == directory::page_query(None).push(
            ("cursor"@, cursor),
        ),
{
    let q = directory::page_query(None);
    assert(q[0] == ("exclude_archived"@, "true"@));
    assert(q[1] == ("limit"@, "200"@));
    assert(q[2] == ("types"@, "public_channel,private_channel,mpim,im"@));
}

/// The names that a reply gives for a user, in the order in which they are
/// looked at: four of the profile, then two of the user.
pub open spec fn name_at(user: Tree, k: int) -> Option<Tree> {
    let profile = match json::member(user, "profile"@) {
        Some(p) => p,
        None => Tree::Null,
    };
    if k == 0 {
        json::member(profile, "display_name"@)
    } else if k == 1 {
        json::member(profile, "display_name_normalized"@)
    } else if k == 2 {
        json::member(profile, "real_name_normalized"@)
    } else if k == 3 {
        json::member(profile, "real_name"@)
    } else if k == 4 {
        json::member(user, "real_name"@)
    } else {
        json::member(user, "name"@)
    }
}

/// The member is no name: it is no text, or a blank one.
pub open spec fn nameless(j: Option<Tree>) -> bool {
    j matches Some(Tree::Text(t)) ==> words::blank(t)
}

/// The name of a user is the first of them that is not blank, without the white
/// space around it. A user without any has none, and so has a reply without a
/// user.
pub proof fn law_the_first_name_counts(
    payload: Tree,
    user: Tree,
    k: int,
    a: Seq<char>,
    name: Seq<char>,
    b: Seq<char>,
)
    requires
        json::member(payload, "user"@) == Some(user),
        words::blank(a),
        words::bare(name),
        words::blank(b),
        0 <= k < 6,
    ensures
        name_at(user, k) == Some(Tree::Text(words::padded(a, name, b))) && (forall|j: int|
            0 <= j < k ==> nameless(#[trigger] name_at(user, j))) ==> users::display_name(payload)
            == Some(name),
        (forall|j: int| 0 <= j < 6 ==> nameless(#[trigger] name_at(user, j)))
            ==> users::display_name(payload) is None,
{
    words::law_trim_gives_what_is_padded(a, name, b);
    if forall|j: int| 0 <= j < k ==> nameless(#[trigger] name_at(user, j)) {
        lemma_nameless(user, 0, k);
        lemma_nameless(user, 1, k);
        lemma_nameless(user, 2, k);
        lemma_nameless(user, 3, k);
        lemma_nameless(user, 4, k);
    }
    if forall|j: int| 0 <= j < 6 ==> nameless(#[trigger] name_at(user, j)) {
        lemma_nameless(user, 0, 6);
        lemma_nameless(user, 1, 6);
        lemma_nameless(user, 2, 6);
        lemma_nameless(user, 3, 6);
        lemma_nameless(user, 4, 6);
        lemma_nameless(user, 5, 6);
    }
}

/// What is no name gives none.
proof fn lemma_nameless(user: Tree, j: int, k: int)
    requires
        0 <= j < 6,
        forall|i: int| 0 <= i < k ==> nameless(#[trigger] name_at(user, i)),
    ensures
        j < k ==> match json::as_text(name_at(user, j)) {
            Some(t) => channel::nonblank(t) is None,
            None => true,
        },
{
    if j < k {
        assert(nameless(name_at(user, j)));
        if let Some(t) = json::as_text(name_at(user, j)) {
            words::law_trim_leaves_nothing_of_blanks(t);
        }
    }
}

/// Only a successful reply gives a name, and one without a user gives none.
pub proof fn law_names_come_from_successes(status: u16, payload: Tree)
    ensures
        went_well(status, payload) ==> users::fetched_name(status, payload) == users::display_name(
            payload,
        ),
        !went_well(status, payload) ==> users::fetched_name(status, payload) is None,
        json::member(payload, "user"@) is None ==> users::display_name(payload) is None,
{
    law_replies_are_judged(status, payload);
}

} // verus!
