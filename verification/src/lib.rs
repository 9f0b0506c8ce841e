//! Launcher-index helper: scans known program locations into a deduplicated
//! catalog of launchable entries, ranks them by a recency/frequency score
//! against a persisted usage history, and maps catalog entries to and from
//! the text protocol of an external line-picker.

pub mod catalog;
pub mod history;
pub mod rank;
pub mod select;
pub mod text;
