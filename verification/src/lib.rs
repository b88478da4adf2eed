//! A verified core for a chat-bot that registers alert subscribers,
//! tracks named events with scheduled dates, and reports the current
//! time in a server-configured timezone.

pub mod clock;
pub mod date;
pub mod dispatch;
pub mod format;
pub mod parse;
pub mod store;
pub mod tick;
