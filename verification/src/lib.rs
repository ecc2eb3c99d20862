//! Sans-I/O core of a bot that publishes queued comic posts to a Mastodon
//! instance: the posting queue, the captions, and the requests to send.

pub mod client;
pub mod post;
pub mod text;

pub use crate::client::Mastodon;
