//! The messages that go through the channel.

use vstd::prelude::*;

verus! {

/// A message that came in.
#[derive(Debug)]
pub struct ChannelMessage {
    pub id: String,
    pub sender: String,
    pub reply_target: String,
    pub content: String,
    pub channel: String,
    pub timestamp: u64,
    pub thread_ts: Option<String>,
}

/// A message to send.
#[derive(Debug)]
pub struct SendMessage {
    pub content: String,
    pub recipient: String,
    pub thread_ts: Option<String>,
}

/// Whether replies are shown while they are being written.
#[derive(Clone, Copy, Debug, PartialEq, Eq, Structural)]
pub enum StreamMode {
    Off,
    Partial,
}

/// The text of an optional string.
pub open spec fn opt_text(s: Option<String>) -> Option<Seq<char>> {
    match s {
        Some(t) => Some(t@),
        None => None,
    }
}

impl SendMessage {
    /// A message outside of any thread.
    pub fn new(content: &str, recipient: &str) -> (r: SendMessage)
        ensures
            r.content@ == content@,
            r.recipient@ == recipient@,
            r.thread_ts is None,
    {
        SendMessage { content: content.to_owned(), recipient: recipient.to_owned(), thread_ts: None }
    }
}

} // verus!
