//! What the channel promises, told from what goes in and what comes out.

pub mod hearing;
pub mod keeping;
pub mod listening;
pub mod replies;
pub mod settings;
pub mod waiting;
pub mod words;
pub mod writing;
