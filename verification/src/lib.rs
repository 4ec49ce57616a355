//! Verified core of a daily-entry tracker: a store of dated, tagged,
//! fixed-point entries with an irreversible per-day lock, derived monthly
//! reports, a tag taxonomy of names and display colors, and the decision
//! rule behind the configuration-file watcher.

pub mod lex;
pub mod entry;
pub mod store;
pub mod tags;
pub mod watch;
pub mod laws;
