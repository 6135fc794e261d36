//! Who sent a message: display names and their cache.

use vstd::prelude::*;
use crate::api;
use crate::channel;
use crate::channel::SlackChannel;
use crate::clock::Span;
use crate::json;
use crate::json::{Json, Tree};
use crate::messages;
use crate::text;

verus! {

/// The name under the given key of an optional object, without white space at
/// its ends, if it is not blank.
pub open spec fn name_under(j: Option<Tree>, key: Seq<char>) -> Option<Seq<char>> {
    match j {
        Some(object) => match json::text_member(object, key) {
            Some(name) => channel::nonblank(name),
            None => None,
        },
        None => None,
    }
}

/// The first name if there is one, else the second.
pub open spec fn or_name(a: Option<Seq<char>>, b: Option<Seq<char>>) -> Option<Seq<char>> {
    if a is Some {
        a
    } else {
        b
    }
}

/// The display name in a payload of `users.info`: the first of the profile's
/// and the user's names that is not blank.
pub open spec fn display_name(payload: Tree) -> Option<Seq<char>> {
    match json::member(payload, "user"@) {
        Some(user) => {
            let profile = json::member(user, "profile"@);
            or_name(
                name_under(profile, "display_name"@),
                or_name(
                    name_under(profile, "display_name_normalized"@),
                    or_name(
                        name_under(profile, "real_name_normalized"@),
                        or_name(
                            name_under(profile, "real_name"@),
                            or_name(
                                name_under(Some(user), "real_name"@),
                                name_under(Some(user), "name"@),
                            ),
                        ),
                    ),
                ),
            )
        },
        None => None,
    }
}

/// The display name that a reply of `users.info` yields.
pub open spec fn fetched_name(status: u16, payload: Tree) -> Option<Seq<char>> {
    if api::reply_failure(status, payload) is Some {
        None
    } else {
        display_name(payload)
    }
}

/// How the identity of a sender is found.
#[derive(Debug)]
pub enum SenderLookup {
    /// It is known.
    Known(String),
    /// The display name of this user has to be fetched.
    Fetch(String),
}

/// How the identity of a sender is found, as contracts speak of it.
pub enum Lookup {
    Known(Seq<char>),
    Fetch(Seq<char>),
}

impl View for SenderLookup {
    type V = Lookup;

    open spec fn view(&self) -> Lookup {
        match self {
            SenderLookup::Known(name) => Lookup::Known(name@),
            SenderLookup::Fetch(user_id) => Lookup::Fetch(user_id@),
        }
    }
}

/// How the identity of a sender is found: a blank user has the empty one, a
/// cached name is used, any other has to be fetched.
pub open spec fn lookup(
    cache: Map<Seq<char>, (Seq<char>, int)>,
    user_id: Seq<char>,
    now: int,
) -> Lookup {
    let id = text::trim(user_id);
    if id.len() == 0 {
        Lookup::Known(Seq::empty())
    } else {
        match channel::cached_name(cache, id, now) {
            Some(name) => Lookup::Known(name),
            None => Lookup::Fetch(id),
        }
    }
}

/// The name under the given key of an optional object.
fn name_under_of(j: Option<&Json>, key: &str) -> (r: Option<String>)
    ensures
        messages::opt_text(r) == name_under(
            match j {
                Some(object) => Some(object@),
                None => None,
            },
            key@,
        ),
{
    match j {
        Some(object) => match object.get_str(key) {
            Some(name) => SlackChannel::sanitize_display_name(name),
            None => None,
        },
        None => None,
    }
}

impl SlackChannel {
    /// The display name in a payload of `users.info`.
    pub fn extract_user_display_name(payload: &Json) -> (r: Option<String>)
        ensures
            messages::opt_text(r) == display_name(payload@),
    {
        let user = match payload.get("user") {
            Some(user) => user,
            None => {
                return None;
            },
        };
        let profile = user.get("profile");
        if let Some(name) = name_under_of(profile, "display_name") {
            return Some(name);
        }
        if let Some(name) = name_under_of(profile, "display_name_normalized") {
            return Some(name);
        }
        if let Some(name) = name_under_of(profile, "real_name_normalized") {
            return Some(name);
        }
        if let Some(name) = name_under_of(profile, "real_name") {
            return Some(name);
        }
        if let Some(name) = name_under_of(Some(user), "real_name") {
            return Some(name);
        }
        name_under_of(Some(user), "name")
    }

    /// The display name that a payload of `users.info` yields.
    pub fn display_name_from_payload(status: u16, payload: &Json) -> (r: Option<String>)
        ensures
            messages::opt_text(r) == fetched_name(status, payload@),
    {
        match api::check_payload(status, payload) {
            Ok(_) => Self::extract_user_display_name(payload),
            Err(_) => None,
        }
    }

    /// The display name that a reply of `users.info` yields.
    pub fn fetch_sender_display_name(status: u16, body: &str) -> (r: Option<String>)
        ensures
            messages::opt_text(r) == fetched_name(status, json::body_value(body@)),
    {
        let payload = json::parse_body(body);
        Self::display_name_from_payload(status, &payload)
    }

    /// Starts to resolve the identity of a sender.
    pub fn lookup_sender(&mut self, user_id: &str, now: Span) -> (r: SenderLookup)
        ensures
            r@ == lookup(old(self).user_display_name_cache@, user_id@, now@),
            final(self).user_display_name_cache@ == if text::trim(user_id@).len() == 0 {
                old(self).user_display_name_cache@
            } else {
                channel::cache_after_read(
                    old(self).user_display_name_cache@,
                    text::trim(user_id@),
                    now@,
                )
            },
            *final(self) == (SlackChannel {
                user_display_name_cache: final(self).user_display_name_cache,
                ..*old(self)
            }),
    {
        let chars = text::chars_of(user_id);
        let id = text::string_of(text::trim_of(chars.as_slice()));
        if id.as_str().is_empty() {
            return SenderLookup::Known(String::new());
        }
        match self.cached_sender_display_name(id.as_str(), now) {
            Some(name) => SenderLookup::Known(name),
            None => SenderLookup::Fetch(id),
        }
    }

    /// Ends the resolution of a sender whose display name had to be fetched: a
    /// name that came is cached and used, else the user stands for itself.
    pub fn resolve_sender_identity(
        &mut self,
        user_id: &str,
        fetched: Option<String>,
        now: Span,
    ) -> (r: String)
        requires
            now@ + channel::cache_ttl() <= u128::MAX,
        ensures
            r@ == match fetched {
                Some(name) => name@,
                None => user_id@,
            },
            final(self).user_display_name_cache@ == match fetched {
                Some(name) => old(self).user_display_name_cache@.insert(
                    user_id@,
                    (name@, now@ + channel::cache_ttl()),
                ),
                None => old(self).user_display_name_cache@,
            },
            *final(self) == (SlackChannel {
                user_display_name_cache: final(self).user_display_name_cache,
                ..*old(self)
            }),
    {
        match fetched {
            Some(name) => {
                self.cache_sender_display_name(user_id, name.as_str(), now);
                name
            },
            None => user_id.to_owned(),
        }
    }
}

} // verus!
