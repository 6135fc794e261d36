//! What is sent, and how failures are told.

use vstd::prelude::*;
use crate::api;
use crate::api::Failure;
use crate::drafts;
use crate::json;
use crate::json::Tree;
use crate::outside;
use crate::promises::hearing;

verus! {

/// The length of a text is that of its encoding in UTF-8.
pub proof fn law_length_is_that_of_the_encoding(s: Seq<char>)
    ensures
        drafts::bytes_len(s) == vstd::utf8::encode_utf8(s).len(),
    decreases s.len(),
{
    if s.len() > 0 {
        let rest = s.drop_first();
        law_length_is_that_of_the_encoding(rest);
        lemma_first(s);
        lemma_width(s[0]);
    }
}

/// A character has as many bytes as its encoding.
proof fn lemma_width(c: char)
    ensures
        drafts::width(c) == vstd::utf8::encode_scalar(c as u32).len(),
{
}

/// The length of a text is that of its first character and of the rest.
proof fn lemma_first(s: Seq<char>)
    requires
        s.len() > 0,
    ensures
        drafts::bytes_len(s) == drafts::width(s[0]) + drafts::bytes_len(s.drop_first()),
    decreases s.len(),
{
    if s.len() == 1 {
        assert(s.drop_last() == Seq::<char>::empty());
        assert(s.drop_first() == Seq::<char>::empty());
        reveal_with_fuel(drafts::bytes_len, 2);
    } else {
        lemma_first(s.drop_last());
        assert(s.drop_last().drop_first() == s.drop_first().drop_last());
    }
}

/// A text that is too long is cut between two characters: what is left has at
/// most as many bytes as the limit, and one character more would not fit.
pub proof fn law_texts_are_cut_at_the_limit(s: Seq<char>, limit: int)
    requires
        limit >= 0,
    ensures
        ({
            let c = drafts::clipped(s, limit);
            &&& exists|rest: Seq<char>| s == #[trigger] (c + rest)
            &&& vstd::utf8::encode_utf8(c).len() <= limit
            &&& vstd::utf8::encode_utf8(s).len() <= limit ==> c == s
            &&& c.len() < s.len() ==> vstd::utf8::encode_utf8(s.take((c.len() + 1) as int)).len() > limit
        }),
{
    let c = drafts::clipped(s, limit);
    crate::laws::law_clipped_text_is_the_longest_beginning(s, limit);
    law_length_is_that_of_the_encoding(c);
    law_length_is_that_of_the_encoding(s);
    assert(s == c + s.skip(c.len() as int));
    if c.len() < s.len() {
        law_length_is_that_of_the_encoding(s.take((c.len() + 1) as int));
        assert(drafts::bytes_len(s.take((c.len() + 1) as int)) > limit);
    }
}

/// The request that replaces a text names the channel, the message and the text.
pub proof fn law_updates_are_read_back(
    body: Tree,
    recipient: Seq<char>,
    message_id: Seq<char>,
    content: Seq<char>,
)
    requires
        outside::holds_texts(Some(body), drafts::update_fields(recipient, message_id, content)),
    ensures
        hearing::member_is(body, "channel"@, recipient),
        hearing::member_is(body, "ts"@, message_id),
        hearing::member_is(body, "text"@, content),
{
    let all = drafts::update_fields(recipient, message_id, content);
    assert(all[0] == ("channel"@, recipient));
    assert(all[1] == ("ts"@, message_id));
    assert(all[2] == ("text"@, content));
}

/// The request that deletes a message names the channel and the message.
pub proof fn law_deletions_are_read_back(body: Tree, recipient: Seq<char>, message_id: Seq<char>)
    requires
        outside::holds_texts(Some(body), drafts::delete_fields(recipient, message_id)),
    ensures
        hearing::member_is(body, "channel"@, recipient),
        hearing::member_is(body, "ts"@, message_id),
{
    let all = drafts::delete_fields(recipient, message_id);
    assert(all[0] == ("channel"@, recipient));
    assert(all[1] == ("ts"@, message_id));
}

/// A request to post names the channel, the text, and the thread if there is one,
/// and nothing else.
pub proof fn law_posts_are_read_back(
    body: Tree,
    recipient: Seq<char>,
    content: Seq<char>,
    thread_ts: Option<Seq<char>>,
)
    requires
        outside::holds_texts(Some(body), drafts::post_fields(recipient, content, thread_ts)),
    ensures
        hearing::member_is(body, "channel"@, recipient),
        hearing::member_is(body, "text"@, content),
        thread_ts matches Some(ts) ==> hearing::member_is(body, "thread_ts"@, ts),
        thread_ts is None ==> json::member(body, "thread_ts"@) is None,
{
    crate::laws::law_posted_message_is_read_back(body, recipient, content, thread_ts);
    let all = drafts::post_fields(recipient, content, thread_ts);
    assert(all[0] == ("channel"@, recipient));
    assert(all[1] == ("text"@, content));
    if let Some(ts) = thread_ts {
        assert(all[2] == ("thread_ts"@, ts));
    } else if json::member(body, "thread_ts"@) is Some {
        reveal_strlit("channel");
        reveal_strlit("text");
        reveal_strlit("thread_ts");
        assert("channel"@.len() == 7 && "text"@.len() == 4 && "thread_ts"@.len() == 9);
        let i = choose|i: int| 0 <= i < all.len() && (#[trigger] all[i]).0 == "thread_ts"@;
        assert(i == 0 || i == 1);
    }
}

/// A draft begins with its text, and an empty one with three dots.
pub proof fn law_drafts_begin_with_something(content: Seq<char>)
    ensures
        drafts::first_text(content).len() > 0,
        content.len() > 0 ==> drafts::first_text(content) == content,
        drafts::first_text(Seq::empty()) == seq!['.', '.', '.'],
{
    reveal_strlit("...");
    assert("..."@ == seq!['.', '.', '.']);
}

/// A failure is told with the operation, and with the status and the reply or
/// with the reason.
pub proof fn law_failures_are_told(
    status: u16,
    operation: Seq<char>,
    shown: Seq<char>,
    detail: Seq<char>,
    reason: Seq<char>,
)
    ensures
        api::failure_message(Failure::Status(status), operation, shown, detail) == "Slack "@
            + operation + " failed ("@ + shown + "): "@ + detail,
        api::failure_message(Failure::Refused(reason), operation, shown, detail) == "Slack "@
            + operation + " failed: "@ + reason,
        api::failure_message(Failure::NoUrl, operation, shown, detail) == "Slack "@ + operation
            + " did not return url"@,
        api::failure_message(Failure::NoAppToken, operation, shown, detail)
            == "Slack Socket Mode requires app_token"@,
{
}

} // verus!
