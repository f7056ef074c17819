//! An ordered, day-divided index over a chat's messages, laid out newest
//! first for a virtualised list view.
//!
//! The index keeps standalone messages and album groups in descending id
//! order and shows a day divider between two neighbours that were sent on
//! different days. Every edit reports one coalesced change so that a list
//! view can follow it incrementally.

pub mod change;
pub mod edits;
pub mod entry;
pub mod grouping;
pub mod laws;
pub mod layout;
pub mod message;
pub mod model;

pub use change::Change;
pub use entry::{EntryView, HistoryEntry};
pub use message::{Day, Message};
pub use model::{ChatHistoryError, ChatHistoryModel, HistoryRequest, LoadOutcome, SourceError};
