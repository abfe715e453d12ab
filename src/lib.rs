//! Tails a chat log, parses its lines into records, and turns the records
//! that match configured rules into alerts for notifier backends.
pub mod config;
pub mod dispatch;
pub mod notifier;
pub mod record;
pub mod tailer;
pub mod text;
pub mod trigger;
