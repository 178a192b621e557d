//! Interactive capture of a directory as a reusable project template.
//!
//! The crate models a navigable, filterable directory tree (`tree`), a
//! badness-minimizing line-breaking algorithm for help-bar layout (`layout`),
//! a replication engine honoring per-entry inclusion decisions (`copy`), and
//! the state machines behind the interactive screens (`screens`). All
//! decision logic lives here with verified contracts; terminal and
//! filesystem plumbing stays in the surrounding application.

pub mod boolprompt;
pub mod config;
pub mod copy;
pub mod help;
pub mod input;
pub mod layout;
pub mod screens;
pub mod spinner;
pub mod userbool;
pub mod userpath;
pub mod verbosity;
pub mod text;
pub mod tree;
