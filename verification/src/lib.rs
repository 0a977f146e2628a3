//! A story telling engine for a chat bot.
//!
//! Story files are parsed ([`parser`]) into blocks of text linked by
//! commands, from which a story graph is built ([`story`]). The bot keeps
//! the loaded stories, the story selected to be played and where each user
//! stands, and decides what each chat command changes and answers ([`bot`],
//! [`response`]). The chat client, file reading and start-up live around
//! this library.

pub mod bot;
pub mod files;
pub mod parser;
pub mod response;
pub mod story;
pub mod story2;
