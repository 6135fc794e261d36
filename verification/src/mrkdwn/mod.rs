//! Conversion of standard Markdown to Slack's `mrkdwn` markup.
//!
//! Slack uses its own format that differs from standard Markdown:
//!
//! - bold: `*text*` (not `**text**`)
//! - italic: `_text_` (not `*text*`)
//! - strikethrough: `~text~` (not `~~text~~`)
//! - links: `<url|text>` (not `[text](url)`)
//! - headers: not supported, `*SECTION NAME*` stands on a line of its own
//! - bullets: `• item` (not `- item`)
//! - code and code blocks: the same as in Markdown

pub mod blocks;
pub mod brackets;
pub mod code;
pub mod constructs;
pub mod document;
pub mod entities;
pub mod fences;
pub mod laws;
pub mod lines;
pub mod messages;
pub mod pages;
pub mod phrases;
pub mod remnants;
pub mod sheets;
pub mod spans;
pub mod tables;
pub mod targets;
pub mod ticks;
pub mod titles;
pub mod urls;
pub mod wrapping;
