//! The channels that the bot can see.

use vstd::prelude::*;
use crate::api;
use crate::api::ApiError;
use crate::channel;
use crate::channel::SlackChannel;
use crate::json;
use crate::json::{Json, Tree};
use crate::messages;
use crate::outside;
use crate::text;

verus! {

/// The channel that an entry of `conversations.list` stands for, unless it is
/// archived or the bot is no member.
pub open spec fn usable_channel(entry: Tree) -> Option<Seq<char>> {
    if json::as_bool(json::member(entry, "is_archived"@)) == Some(true) || json::as_bool(
        json::member(entry, "is_member"@),
    ) == Some(false) {
        None
    } else {
        json::text_member(entry, "id"@)
    }
}

/// The channels that a payload of `conversations.list` lists, in its order.
pub open spec fn listed_channels(payload: Tree) -> Seq<Seq<char>> {
    match json::member(payload, "channels"@) {
        Some(Tree::Array(entries)) => entries.filter_map(|e: Tree| usable_channel(e)),
        _ => Seq::empty(),
    }
}

/// The cursor of the page that follows a payload of `conversations.list`.
pub open spec fn next_cursor(payload: Tree) -> Option<Seq<char>> {
    match json::member(payload, "response_metadata"@) {
        Some(meta) => match json::text_member(meta, "next_cursor"@) {
            Some(cursor) => channel::nonblank(cursor),
            None => None,
        },
        None => None,
    }
}

/// The query of a page of `conversations.list`.
pub open spec fn page_query(cursor: Option<Seq<char>>) -> Seq<(Seq<char>, Seq<char>)> {
    let base = seq![
        ("exclude_archived"@, "true"@),
        ("limit"@, "200"@),
        ("types"@, "public_channel,private_channel,mpim,im"@),
    ];
    match cursor {
        Some(c) => base.push(("cursor"@, c)),
        None => base,
    }
}

/// The channel that an entry of `conversations.list` stands for.
fn usable_channel_of(entry: &Json) -> (r: Option<String>)
    ensures
        messages::opt_text(r) == usable_channel(entry@),
{
    let archived = match entry.get_bool("is_archived") {
        Some(b) => b,
        None => false,
    };
    let member = match entry.get_bool("is_member") {
        Some(b) => b,
        None => true,
    };
    if archived || !member {
        return None;
    }
    match entry.get_str("id") {
        Some(id) => Some(id.to_owned()),
        None => None,
    }
}

impl SlackChannel {
    /// The channels that a payload of `conversations.list` lists, sorted and
    /// without repetitions.
    pub fn extract_channel_ids(list_payload: &Json) -> (r: Vec<String>)
        ensures
            text::strictly_sorted(text::strings(r@)),
            text::strings(r@).to_set() == listed_channels(list_payload@).to_set(),
    {
        let mut ids: Vec<String> = Vec::new();
        if let Some(entries) = list_payload.get_array("channels") {
            let ghost f = |e: Tree| usable_channel(e);
            let ghost held = json::trees(entries@);
            let mut i: usize = 0;
            proof {
                assert(held.take(0).filter_map(f) == Seq::<Seq<char>>::empty()) by {
                    reveal(Seq::filter_map);
                }
                assert(text::strings(ids@) == held.take(0).filter_map(f));
            }
            while i < entries.len()
                invariant
                    i <= entries.len(),
                    f == (|e: Tree| usable_channel(e)),
                    held == json::trees(entries@),
                    text::strings(ids@) == held.take(i as int).filter_map(f),
                decreases entries.len() - i,
            {
                let ghost before = text::strings(ids@);
                proof {
                    held.lemma_filter_map_take_succ(f, i as int);
                }
                if let Some(id) = usable_channel_of(&entries[i]) {
                    let ghost t = id@;
                    ids.push(id);
                    proof {
                        assert(text::strings(ids@) == before.push(t));
                    }
                }
                i += 1;
            }
            proof {
                assert(held.take(i as int) == held);
            }
        } else {
            proof {
                assert(text::strings(ids@) == listed_channels(list_payload@));
            }
        }
        text::sort_unique(ids)
    }
}

/// A walk through the pages of `conversations.list`.
#[derive(Debug)]
pub struct Discovery {
    /// The channels of the pages so far.
    pub channels: Vec<String>,
    /// The cursor of the page to ask for next.
    pub cursor: Option<String>,
}

impl Discovery {
    /// The walk before its first page.
    pub fn new() -> (r: Discovery)
        ensures
            r.channels@.len() == 0,
            r.cursor is None,
    {
        Discovery { channels: Vec::new(), cursor: None }
    }

    /// The query of the next page.
    pub fn query(&self) -> (r: Vec<(String, String)>)
        ensures
            outside::fields(r@) == page_query(messages::opt_text(self.cursor)),
    {
        let mut out: Vec<(String, String)> = Vec::new();
        api::push_field(&mut out, "exclude_archived", "true");
        api::push_field(&mut out, "limit", "200");
        api::push_field(&mut out, "types", "public_channel,private_channel,mpim,im");
        proof {
            assert(outside::fields(out@) == page_query(None));
        }
        if let Some(cursor) = &self.cursor {
            api::push_field(&mut out, "cursor", cursor.as_str());
        }
        out
    }

    /// Takes in the payload of a page. The result says whether another page
    /// follows.
    pub fn take_page(&mut self, status: u16, payload: &Json) -> (r: Result<bool, ApiError>)
        ensures
            match r {
                Ok(more) => {
                    &&& api::reply_failure(status, payload@) is None
                    &&& more == (next_cursor(payload@) is Some)
                    &&& messages::opt_text(final(self).cursor) == next_cursor(payload@)
                    &&& text::strings(final(self).channels@).to_set() == text::strings(
                        old(self).channels@,
                    ).to_set().union(listed_channels(payload@).to_set())
                },
                Err(e) => api::reply_failure(status, payload@) == Some(e@) && *final(self) == *old(
                    self,
                ),
            },
    {
        match api::check_payload(status, payload) {
            Ok(_) => {},
            Err(e) => {
                return Err(e);
            },
        }
        let ids = SlackChannel::extract_channel_ids(payload);
        let ghost view = text::strings(ids@);
        let ghost start = text::strings(self.channels@);
        let mut i: usize = 0;
        proof {
            assert(start + view.take(0) == start);
        }
        while i < ids.len()
            invariant
                i <= ids.len(),
                view == text::strings(ids@),
                text::strings(self.channels@) == start + view.take(i as int),
                self.cursor == old(self).cursor,
            decreases ids.len() - i,
        {
            let ghost before = text::strings(self.channels@);
            self.channels.push(ids[i].clone());
            proof {
                assert(text::strings(self.channels@) == before.push(view[i as int]));
                assert(view.take(i + 1) == view.take(i as int).push(view[i as int]));
            }
            i += 1;
        }
        proof {
            assert(view.take(i as int) == view);
            vstd::seq_lib::seq_to_set_distributes_over_add(start, view);
        }
        self.cursor = match payload.get("response_metadata") {
            Some(meta) => match meta.get_str("next_cursor") {
                Some(cursor) => channel::nonblank_of(cursor),
                None => None,
            },
            None => None,
        };
        Ok(self.cursor.is_some())
    }

    /// Takes in the reply for a page. The result says whether another page
    /// follows.
    pub fn on_reply(&mut self, status: u16, body: &str) -> (r: Result<bool, ApiError>)
        ensures
            match r {
                Ok(more) => {
                    let payload = json::body_value(body@);
                    &&& api::reply_failure(status, payload) is None
                    &&& more == (next_cursor(payload) is Some)
                    &&& messages::opt_text(final(self).cursor) == next_cursor(payload)
                    &&& text::strings(final(self).channels@).to_set() == text::strings(
                        old(self).channels@,
                    ).to_set().union(listed_channels(payload).to_set())
                },
                Err(e) => api::reply_failure(status, json::body_value(body@)) == Some(e@)
                    && *final(self) == *old(self),
            },
    {
        let payload = json::parse_body(body);
        self.take_page(status, &payload)
    }

    /// All channels of the walk, sorted and without repetitions.
    pub fn finish(self) -> (r: Vec<String>)
        ensures
            text::strictly_sorted(text::strings(r@)),
            text::strings(r@).to_set() == text::strings(self.channels@).to_set(),
    {
        text::sort_unique(self.channels)
    }
}

} // verus!
