//! Watch-and-record engine for a desktop clipboard-history manager.
//!
//! The library records distinct clipboard items (text and images) into a
//! bounded, ordered, deduplicated history, decides per polling tick whether a
//! sampled clipboard value is a genuine new entry, suppresses changes the
//! engine itself caused, and renders/parses the durable on-disk document.
//! All I/O (clipboard access, files, timers) lives outside the library; the
//! library works on plain values and states its behaviour in contracts.

pub mod clock;
pub mod config;
pub mod hash;
pub mod history;
pub mod json;
pub mod store;
pub mod suppress;
pub mod text;
pub mod vault;
pub mod watch;
