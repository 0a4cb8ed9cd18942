//! Virtual-desktop-aware window activation tracking.
//!
//! Each virtual desktop keeps a small, deduplicating, most-recently-used
//! history of its foreground windows. When the user switches back to a
//! desktop, the most recently active window recorded for it is the one to
//! restore. The modules here hold the verified state and decision logic;
//! the operating-system calls that feed events in and carry activations out
//! live outside this crate.

pub mod procinfo;
pub mod recency;
pub mod registry;
pub mod tracker;
