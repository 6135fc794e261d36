//! Tables that are keyed by text.

use vstd::prelude::*;
use vstd::hash_map::StringHashMap;
use crate::clock::Span;

verus! {

/// The last timestamp that was seen in each channel.
pub struct CursorTable {
    entries: StringHashMap<String>,
}

impl View for CursorTable {
    type V = Map<Seq<char>, Seq<char>>;

    /// The timestamp of each channel that has one.
    closed spec fn view(&self) -> Map<Seq<char>, Seq<char>> {
        self.entries@.map_values(|t: String| t@)
    }
}

impl CursorTable {
    /// An empty table.
    pub fn new() -> (r: CursorTable)
        ensures
            r@ == Map::<Seq<char>, Seq<char>>::empty(),
    {
        let r = CursorTable { entries: StringHashMap::new() };
        proof {
            assert(r@ == Map::<Seq<char>, Seq<char>>::empty());
        }
        r
    }

    /// The timestamp of a channel.
    pub fn get(&self, channel_id: &str) -> (r: Option<&str>)
        ensures
            match r {
                Some(ts) => self@.contains_key(channel_id@) && ts@ == self@[channel_id@],
                None => !self@.contains_key(channel_id@),
            },
    {
        match self.entries.get(channel_id) {
            Some(ts) => Some(ts.as_str()),
            None => None,
        }
    }

    /// Sets the timestamp of a channel.
    pub fn insert(&mut self, channel_id: &str, ts: &str)
        ensures
            final(self)@ == old(self)@.insert(channel_id@, ts@),
    {
        self.entries.insert(channel_id.to_owned(), ts.to_owned());
        proof {
            assert(self@ == old(self)@.insert(channel_id@, ts@));
        }
    }
}

/// A display name and the time up to which it may be used.
#[derive(Debug)]
pub struct CachedSlackDisplayName {
    pub display_name: String,
    pub expires_at: Span,
}

impl View for CachedSlackDisplayName {
    type V = (Seq<char>, int);

    /// The name and the time up to which it may be used.
    open spec fn view(&self) -> (Seq<char>, int) {
        (self.display_name@, self.expires_at@)
    }
}

/// The display names that were fetched, by user.
pub struct NameCache {
    entries: StringHashMap<CachedSlackDisplayName>,
}

impl View for NameCache {
    type V = Map<Seq<char>, (Seq<char>, int)>;

    /// The name of each user that has one, and the time up to which it may be
    /// used.
    closed spec fn view(&self) -> Map<Seq<char>, (Seq<char>, int)> {
        self.entries@.map_values(|e: CachedSlackDisplayName| e@)
    }
}

impl NameCache {
    /// An empty cache.
    pub fn new() -> (r: NameCache)
        ensures
            r@ == Map::<Seq<char>, (Seq<char>, int)>::empty(),
    {
        let r = NameCache { entries: StringHashMap::new() };
        proof {
            assert(r@ == Map::<Seq<char>, (Seq<char>, int)>::empty());
        }
        r
    }

    /// The entry of a user.
    pub fn get(&self, user_id: &str) -> (r: Option<&CachedSlackDisplayName>)
        ensures
            match r {
                Some(e) => self@.contains_key(user_id@) && e@ == self@[user_id@],
                None => !self@.contains_key(user_id@),
            },
    {
        self.entries.get(user_id)
    }

    /// Sets the entry of a user.
    pub fn insert(&mut self, user_id: &str, entry: CachedSlackDisplayName)
        ensures
            final(self)@ == old(self)@.insert(user_id@, entry@),
    {
        self.entries.insert(user_id.to_owned(), entry);
        proof {
            assert(self@ == old(self)@.insert(user_id@, entry@));
        }
    }

    /// Drops the entry of a user.
    pub fn remove(&mut self, user_id: &str)
        ensures
            final(self)@ == old(self)@.remove(user_id@),
    {
        self.entries.remove(user_id);
        proof {
            assert(self@ == old(self)@.remove(user_id@));
        }
    }
}

/// The time of the last draft edit, by recipient.
pub struct DraftEdits {
    entries: StringHashMap<Span>,
}

impl View for DraftEdits {
    type V = Map<Seq<char>, int>;

    /// The time of the last edit for each recipient that has one.
    closed spec fn view(&self) -> Map<Seq<char>, int> {
        self.entries@.map_values(|t: Span| t@)
    }
}

impl DraftEdits {
    /// An empty table.
    pub fn new() -> (r: DraftEdits)
        ensures
            r@ == Map::<Seq<char>, int>::empty(),
    {
        let r = DraftEdits { entries: StringHashMap::new() };
        proof {
            assert(r@ == Map::<Seq<char>, int>::empty());
        }
        r
    }

    /// The time of the last edit for a recipient.
    pub fn get(&self, recipient: &str) -> (r: Option<Span>)
        ensures
            match r {
                Some(t) => self@.contains_key(recipient@) && t@ == self@[recipient@],
                None => !self@.contains_key(recipient@),
            },
    {
        match self.entries.get(recipient) {
            Some(t) => Some(*t),
            None => None,
        }
    }

    /// Sets the time of the last edit for a recipient.
    pub fn insert(&mut self, recipient: &str, at: Span)
        ensures
            final(self)@ == old(self)@.insert(recipient@, at@),
    {
        self.entries.insert(recipient.to_owned(), at);
        proof {
            assert(self@ == old(self)@.insert(recipient@, at@));
        }
    }

    /// Drops the time of a recipient.
    pub fn remove(&mut self, recipient: &str)
        ensures
            final(self)@ == old(self)@.remove(recipient@),
    {
        self.entries.remove(recipient);
        proof {
            assert(self@ == old(self)@.remove(recipient@));
        }
    }
}

} // verus!
