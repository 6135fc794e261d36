//! The decision core of a Slack messaging channel.

pub mod api;
pub mod channel;
pub mod clock;
pub mod directory;
pub mod drafts;
pub mod inbound;
pub mod json;
pub mod laws;
pub mod messages;
pub mod mrkdwn;
pub mod outside;
pub mod polling;
pub mod promises;
pub mod retry;
pub mod rounds;
pub mod runs;
pub mod sessions;
pub mod sockets;
pub mod tables;
pub mod text;
pub mod users;
